//! What the search remembers: its limits, counters and learned tables.
//!
//! Ordering quality is what makes pruning safe, so the history tables get as
//! much attention as the pruning rules do.

use vstd::prelude::*;
use crate::eval;
use crate::geom;
use crate::infer;
use crate::infer::{Brain, Net};
use crate::moves::Move;
use crate::tt::{Table, Tt};

verus! {

broadcast use crate::tt::group_led;

pub const MAX_DEPTH: i32 = 100;

/// The most search threads that can be asked for.
pub const MAX_THREADS: usize = 8;

/// One more than every `(colour * 6 + piece type) * 64 + square`; zero means
/// no move.
pub const CONT_N: usize = 769;

/// Entries of one correction table, per side.
pub const CORR_N: usize = 16_384;

/// Correction tables count in fractions of a centipawn.
pub const CORR_GRAIN: i32 = 256;

/// Ceiling on one table's entry. Each table is a nudge, never a replacement for
/// the evaluation.
pub const CORR_MAX: i32 = 12_288;

/// Ceiling on the three of them combined, in centipawns.
pub const CORR_CLAMP: i32 = 72;

pub const MAX_HIST: i32 = 16_384;

#[derive(Clone, Copy)]
pub struct Limits {
    pub depth: i32,
    pub nodes: u64,
    pub movetime: u64,
    pub time: [u64; 2],
    pub inc: [u64; 2],
    pub movestogo: u64,
    pub infinite: bool,
}

impl Limits {
    /// All zero, which is not a usable set of limits. Every entry point sets
    /// real limits before searching.
    pub fn zeroed() -> (l: Limits)
        ensures
            l.depth == 0,
            l.nodes == 0,
            l.movetime == 0,
            l.time@ == seq![0u64, 0u64],
            l.inc@ == seq![0u64, 0u64],
            l.movestogo == 0,
            !l.infinite,
    {
        let z: [u64; 2] = [0, 0];
        assert(z@ =~= seq![0u64, 0u64]);
        Limits { depth: 0, nodes: 0, movetime: 0, time: z, inc: z, movestogo: 0, infinite: false }
    }

    /// No limit but the greatest depth.
    pub fn new() -> (l: Limits)
        ensures
            l.depth == MAX_DEPTH,
            l.nodes == u64::MAX,
            l.movetime == 0,
            l.time@ == seq![0u64, 0u64],
            l.inc@ == seq![0u64, 0u64],
            l.movestogo == 0,
            !l.infinite,
    {
        Limits { depth: MAX_DEPTH, nodes: u64::MAX, ..Limits::zeroed() }
    }
}

/// One ply of the line being searched.
#[derive(Clone, Copy)]
pub struct Node {
    pub mv: Move,
    /// `(colour * 6 + piece type) * 64 + to`, biased by one so that zero means
    /// no move.
    pub piece_to: usize,
    /// The corrected static evaluation, from the side to move there.
    pub eval: i32,
}

pub open spec fn no_node() -> Node {
    Node { mv: Move(0), piece_to: 0, eval: 0 }
}

pub struct Searcher {
    pub id: usize,
    pub threads: usize,
    /// First iteration to run; 0 for the usual one.
    pub start_depth: i32,
    pub nodes: u64,
    pub seldepth: usize,
    pub stop: bool,
    pub limits: Limits,
    pub start: u64,
    pub soft: u64,
    pub hard: u64,
    /// Set once a move exists that we are willing to return.
    pub best: Move,
    pub best_score: i32,
    /// Suppresses protocol output.
    pub silent: bool,
    /// Set for searches that are not driven by a controller.
    pub ignore_stdin: bool,
    /// Milliseconds held back from every time budget to cover the trip to the
    /// other side.
    pub move_overhead: u64,
    /// `[ply][2]`
    pub killers: Vec<Move>,
    /// `[side][from][to]`, the classic butterfly table.
    pub history: Vec<i16>,
    /// `[piece][to][captured]`
    pub capt_hist: Vec<i16>,
    /// `[piece][to]`
    pub counter: Vec<Move>,
    pub stack: Vec<Node>,
    /// `[ply][ply]`
    pub pv: Vec<Move>,
    pub pv_len: Vec<usize>,
    /// Reductions in 1/1024 units, `[depth][move]`.
    pub lmr: Vec<i32>,
    /// Continuation history: `[one or two plies back][previous move][move]`.
    pub cont: Vec<i16>,
    /// Static-eval corrections, `[side][key]`.
    pub corr_pawn: Vec<i32>,
    pub corr_np: Vec<i32>,
    /// Static-eval corrections, `[side][previous move]`.
    pub corr_cont: Vec<i32>,
    pub tt: Tt,
    pub net: Net,
    /// Set once the search should wind up.
    pub stopping: bool,
    /// Node counts, republished every thousand nodes.
    pub published: Vec<u64>,
}

/// Everything a search reads and changes, but for the clock.
#[verifier::ext_equal]
pub struct World {
    pub id: usize,
    pub threads: usize,
    pub limits: Limits,
    pub nodes: int,
    pub seldepth: usize,
    pub killers: Seq<Move>,
    pub history: Seq<i16>,
    pub capt_hist: Seq<i16>,
    pub counter: Seq<Move>,
    pub stack: Seq<Node>,
    pub pv: Seq<Move>,
    pub pv_len: Seq<usize>,
    pub lmr: Seq<i32>,
    pub cont: Seq<i16>,
    pub corr_pawn: Seq<i32>,
    pub corr_np: Seq<i32>,
    pub corr_cont: Seq<i32>,
    pub table: Table,
    pub brain: Brain,
    pub published: Seq<u64>,
}

/// A history table never leaves its range.
pub open spec fn tame(h: Seq<i16>, n: int) -> bool {
    h.len() == n && forall|i: int| 0 <= i < n ==> -16_384 <= #[trigger] h[i] <= 16_384
}

/// A correction table never leaves its range.
pub open spec fn mild(c: Seq<i32>, n: int) -> bool {
    c.len() == n && forall|i: int| 0 <= i < n ==> -12_288 <= #[trigger] c[i] <= 12_288
}

impl World {
    pub open spec fn wf(self) -> bool {
        &&& self.id < 8
        &&& self.published.len() == 8
        &&& self.killers.len() == 264
        &&& tame(self.history, 8192)
        &&& tame(self.capt_hist, 5376)
        &&& self.counter.len() == 768
        &&& self.stack.len() == 136
        &&& forall|i: int| 0 <= i < 136 ==> (#[trigger] self.stack[i]).piece_to <= 768
        &&& self.pv.len() == 16_384
        &&& self.pv_len.len() == 128
        &&& forall|i: int| 0 <= i < 128 ==> #[trigger] self.pv_len[i] <= 128 - i
        &&& self.lmr.len() == 4096
        &&& forall|i: int| 0 <= i < 4096 ==> 0 <= #[trigger] self.lmr[i] <= 20_000
        &&& tame(self.cont, 1_182_722)
        &&& mild(self.corr_pawn, 32_768)
        &&& mild(self.corr_np, 32_768)
        &&& mild(self.corr_cont, 1538)
        &&& self.table.wf()
        &&& self.brain.wf()
    }

    /// The move `back` plies before `ply`, as an index; 0 if there is none.
    pub open spec fn prev(self, ply: int, back: int) -> int {
        if ply >= back {
            self.stack[ply - back].piece_to as int
        } else {
            0
        }
    }
}

impl Searcher {
    pub open spec fn view(&self) -> World {
        World {
            id: self.id,
            threads: self.threads,
            limits: self.limits,
            nodes: self.nodes as int,
            seldepth: self.seldepth,
            killers: self.killers@,
            history: self.history@,
            capt_hist: self.capt_hist@,
            counter: self.counter@,
            stack: self.stack@,
            pv: self.pv@,
            pv_len: self.pv_len@,
            lmr: self.lmr@,
            cont: self.cont@,
            corr_pawn: self.corr_pawn@,
            corr_np: self.corr_np@,
            corr_cont: self.corr_cont@,
            table: self.tt@,
            brain: self.net@,
            published: self.published@,
        }
    }

    pub open spec fn wf(self) -> bool {
        self@.wf()
    }

    /// What a search leaves alone: its orders, its reductions, the weights of the
    /// network, and everything outside the world but the stop flags.
    pub open spec fn kept(self, o: Searcher) -> bool {
        &&& self.id == o.id
        &&& self.threads == o.threads
        &&& self.limits == o.limits
        &&& self.start_depth == o.start_depth
        &&& self.start == o.start
        &&& self.soft == o.soft
        &&& self.hard == o.hard
        &&& self.best == o.best
        &&& self.best_score == o.best_score
        &&& self.silent == o.silent
        &&& self.ignore_stdin == o.ignore_stdin
        &&& self.move_overhead == o.move_overhead
        &&& self.lmr == o.lmr
        &&& self.net@.same_weights(o.net@)
    }

    /// The stop flags and the node counts are as they were, and the table was
    /// stored in at most.
    pub open spec fn idle(self, o: Searcher) -> bool {
        self.stop == o.stop && self.stopping == o.stopping && self.nodes == o.nodes
            && self.published == o.published && o.tt@.led_to(self.tt@)
    }

    /// The lines found so far are as they were, too.
    pub open spec fn steady(self, o: Searcher) -> bool {
        self.idle(o) && self.pv == o.pv && self.pv_len == o.pv_len
    }

    /// The lines of the plies before `ply` are as they were.
    pub open spec fn spared(self, o: Searcher, ply: int) -> bool {
        &&& forall|j: int| 0 <= j < ply ==> #[trigger] self.pv_len@[j] == o.pv_len@[j]
        &&& forall|j: int| 0 <= j < ply * 128 ==> #[trigger] self.pv@[j] == o.pv@[j]
    }
}

// ---------------------------------------------------------------------------
// Small arithmetic
// ---------------------------------------------------------------------------

pub open spec fn clamp(x: int, lo: int, hi: int) -> int {
    infer::clamp(x, lo, hi)
}

#[inline(always)]
pub(crate) fn clamp_i32(x: i32, lo: i32, hi: i32) -> (r: i32)
    requires
        lo <= hi,
    ensures
        r == clamp(x as int, lo as int, hi as int),
{
    if x < lo {
        lo
    } else if x > hi {
        hi
    } else {
        x
    }
}

/// A millisecond budget scaled by a per-mille factor. The greatest value means
/// no limit and survives scaling as itself.
pub open spec fn scaled_ms(ms: u64, per_mille: u64) -> int {
    if ms == u64::MAX || ms * per_mille > u64::MAX {
        u64::MAX as int
    } else {
        ms * per_mille / 1000
    }
}

#[inline(always)]
pub(crate) fn scale_ms(ms: u64, per_mille: u64) -> (r: u64)
    ensures
        r == scaled_ms(ms, per_mille),
{
    if ms == u64::MAX {
        return ms;
    }
    // Overflow means the budget was already beyond anything a search will
    // reach, so clamping it there loses nothing.
    match ms.checked_mul(per_mille) {
        Some(v) => v / 1000,
        None => u64::MAX,
    }
}

/// The position of the leading one.
pub open spec fn log2_floor(x: int) -> int
    decreases x,
{
    if x <= 1 {
        0
    } else {
        1 + log2_floor(x / 2)
    }
}

pub open spec fn pow2(k: int) -> int
    decreases k,
{
    if k <= 0 {
        1
    } else {
        2 * pow2(k - 1)
    }
}

/// `ln(x) * 1024` from the leading one and the ten bits after it: the binary
/// logarithm of `1 + f` is `f + f * (1 - f) / 3`, nearly.
pub open spec fn ln_scaled(x: int) -> int {
    if x <= 0 {
        0
    } else {
        let k = log2_floor(x);
        ln_from(k, mantissa(x, pow2(k)))
    }
}

/// What follows the leading one `p` of `x`, in 1024ths.
pub open spec fn mantissa(x: int, p: int) -> int {
    (x - p) * 1024 / p
}

pub open spec fn ln_from(k: int, mant: int) -> int {
    (k * 1024 + mant + mant * (1024 - mant) / 3072) * 709 / 1024
}

/// `ln(x) * 1024`, integer only. Accurate to a few percent, which is all the
/// reduction formula needs.
pub fn ln1024(x: u32) -> (r: i32)
    ensures
        r == ln_scaled(x as int),
        0 <= r <= 22_900,
{
    if x == 0 {
        return 0;
    }
    let mut k: i32 = 0;
    let mut p: u32 = 1;
    let mut y = x;
    while y > 1
        invariant
            1 <= y,
            1 <= x,
            0 <= k <= 31,
            p == pow2(k as int),
            y * p <= x < (y + 1) * p,
            1 <= p <= x,
            k + log2_floor(y as int) == log2_floor(x as int),
        decreases y,
    {
        proof {
            let (yy, pp) = (y as int, p as int);
            assert(yy >= 2);
            assert(2 * pp <= yy * pp) by (nonlinear_arith)
                requires
                    yy >= 2,
                    pp >= 1,
            ;
            let h = yy / 2;
            assert(h * (2 * pp) <= yy * pp) by (nonlinear_arith)
                requires
                    2 * h <= yy,
                    pp >= 1,
            ;
            assert((yy + 1) * pp <= (h + 1) * (2 * pp)) by (nonlinear_arith)
                requires
                    yy + 1 <= 2 * h + 2,
                    pp >= 1,
            ;
            assert(pow2(k + 1) == 2 * pow2(k as int));
            if k == 31 {
                assert(pow2(32) == 0x1_0000_0000) by {
                    reveal_with_fuel(pow2, 33);
                }
            }
        }
        y = y / 2;
        p = p * 2;
        k = k + 1;
    }
    assert(y == 1);
    assert((1int + 1) * p == 2 * p && 1int * p == p);
    let rest = x - p;
    assert(rest < p);
    assert(k == log2_floor(x as int));
    let wide: u64 = rest as u64 * 1024 / p as u64;
    assert(wide < 1024) by {
        let (a, b) = (rest as int, p as int);
        assert(a * 1024 / b < 1024) by (nonlinear_arith)
            requires
                0 <= a < b,
        ;
    }
    let mant = wide as i32;
    assert(0 <= mant * (1024 - mant) <= 262_144) by (nonlinear_arith)
        requires
            0 <= mant < 1024,
    ;
    assert(mant as int == (x - pow2(k as int)) * 1024 / pow2(k as int));
    assert(log2_floor(1) == 0);
    let frac = mant + mant * (1024 - mant) / 3072;
    let log2 = k * 1024 + frac;
    log2 * 709 / 1024
}

/// Scale on every margin that is compared against a static evaluation: 100
/// leaves the tuned values exactly as they are.
pub const MARGIN: i32 = 100;

pub open spec fn margin_of(cp: int) -> int {
    cp
}

#[inline(always)]
pub(crate) fn margin(cp: i32) -> (r: i32)
    requires
        0 <= cp <= 10_000,
    ensures
        r == margin_of(cp as int),
{
    cp * MARGIN / 100
}

/// The index of a piece in the tables.
pub open spec fn piece_index(c: int, pt: int) -> int {
    c * 6 + eval::min(pt, 5)
}

#[inline(always)]
pub fn pc_index(c: usize, pt: usize) -> (r: usize)
    requires
        c < 2,
    ensures
        r == piece_index(c as int, pt as int),
        r < 12,
{
    c * 6 + if pt < 5 {
        pt
    } else {
        5
    }
}

/// A capture or an en-passant capture.
pub open spec fn is_noisy(m: Move) -> bool {
    m.cap() || m.is_ep_spec()
}

#[inline(always)]
pub(crate) fn pos_is_noisy(m: Move) -> (r: bool)
    ensures
        r == is_noisy(m),
{
    m.is_capture() || m.is_ep()
}

// ---------------------------------------------------------------------------
// Setting a searcher up
// ---------------------------------------------------------------------------

/// The tabled reduction of the `m`th move at depth `d`, in 1/1024 plies.
pub open spec fn tabled(d: int, m: int) -> int {
    790 + ln_scaled(d) * ln_scaled(m) / 2417
}

/// `n` zeros.
pub open spec fn zeros16(n: nat) -> Seq<i16> {
    Seq::new(n, |i: int| 0i16)
}

pub open spec fn zeros32(n: nat) -> Seq<i32> {
    Seq::new(n, |i: int| 0i32)
}

/// `n` times no move.
pub open spec fn no_moves(n: nat) -> Seq<Move> {
    Seq::new(n, |i: int| Move(0))
}

impl World {
    /// Nothing has been learned.
    pub open spec fn blank(self) -> bool {
        &&& self.killers == no_moves(264)
        &&& self.history == zeros16(8192)
        &&& self.capt_hist == zeros16(5376)
        &&& self.counter == no_moves(768)
        &&& self.cont == zeros16(1_182_722)
        &&& self.corr_pawn == zeros32(32_768)
        &&& self.corr_np == zeros32(32_768)
        &&& self.corr_cont == zeros32(1538)
    }
}

impl World {
    /// This is `o` with everything forgotten that was learned.
    pub open spec fn emptied(self, o: World) -> bool {
        &&& self.blank()
        &&& self == (World {
            killers: self.killers,
            history: self.history,
            capt_hist: self.capt_hist,
            counter: self.counter,
            cont: self.cont,
            corr_pawn: self.corr_pawn,
            corr_np: self.corr_np,
            corr_cont: self.corr_cont,
            brain: self.brain,
            ..o
        })
        &&& o.id != 0 ==> self.brain == o.brain
        &&& o.id == 0 ==> {
            &&& self.brain == (Brain { cache: self.brain.cache, gen: self.brain.gen, ..o.brain })
            &&& self.brain.forgetful()
        }
    }
}

impl Searcher {
    /// Only what was learned differs from `o`.
    pub open spec fn cleared(self, o: Searcher) -> bool {
        self == (Searcher {
            killers: self.killers,
            history: self.history,
            capt_hist: self.capt_hist,
            counter: self.counter,
            cont: self.cont,
            corr_pawn: self.corr_pawn,
            corr_np: self.corr_np,
            corr_cont: self.corr_cont,
            net: self.net,
            ..o
        })
    }

    /// The reduction table is filled.
    pub open spec fn tabled(self) -> bool {
        forall|d: int, m: int|
            1 <= d < 64 && 1 <= m < 64 ==> #[trigger] self.lmr@[d * 64 + m] == tabled(d, m)
    }

    /// The same engine with the same habits: its reductions, its network, what
    /// it listens to and what it says.
    pub open spec fn same_habits(self, o: Searcher) -> bool {
        &&& self.id == o.id
        &&& self.threads == o.threads
        &&& self.start_depth == o.start_depth
        &&& self.silent == o.silent
        &&& self.ignore_stdin == o.ignore_stdin
        &&& self.move_overhead == o.move_overhead
        &&& self.lmr == o.lmr
        &&& self.net@.same_weights(o.net@)
    }

    /// A searcher that has learned nothing, with an empty transposition table
    /// and no network. Its reduction table is still to be filled.
    pub fn new() -> (s: Searcher)
        ensures
            s.wf(),
            s@.blank(),
            s.id == 0,
            s.threads == 0,
            s.start_depth == 0,
            s.nodes == 0,
            !s.stop,
            s.best == Move(0),
            s.best_score == 0,
            !s.silent,
            !s.ignore_stdin,
            s.move_overhead == 0,
            s.tt.clusters == 0,
            !s.net.loaded,
            s.limits.depth == MAX_DEPTH,
            s.limits.nodes == u64::MAX,
            s.lmr@ == zeros32(4096),
    {
        let null = Move::null();
        let s = Searcher {
            id: 0,
            threads: 0,
            start_depth: 0,
            nodes: 0,
            seldepth: 0,
            stop: false,
            limits: Limits::new(),
            start: 0,
            soft: 0,
            hard: 0,
            best: null,
            best_score: 0,
            silent: false,
            ignore_stdin: false,
            move_overhead: 0,
            killers: moves_vec(264),
            history: vec![0i16; 8192],
            capt_hist: vec![0i16; 5376],
            counter: moves_vec(768),
            stack: nodes_vec(136),
            pv: moves_vec(16_384),
            pv_len: vec![0usize; 128],
            lmr: vec![0i32; 4096],
            cont: vec![0i16; 1_182_722],
            corr_pawn: vec![0i32; 32_768],
            corr_np: vec![0i32; 32_768],
            corr_cont: vec![0i32; 1538],
            tt: Tt::new(),
            net: Net::new(),
            stopping: false,
            published: vec![0u64; 8],
        };
        proof {
            assert(s@.blank()) by {
                assert(s@.history =~= zeros16(8192));
                assert(s@.capt_hist =~= zeros16(5376));
                assert(s@.cont =~= zeros16(1_182_722));
                assert(s@.corr_pawn =~= zeros32(32_768));
                assert(s@.corr_np =~= zeros32(32_768));
                assert(s@.corr_cont =~= zeros32(1538));
            }
            assert(s.lmr@ =~= zeros32(4096));
        }
        s
    }

    /// Fill the reduction table.
    pub fn init_tables(&mut self)
        requires
            old(self).wf(),
        ensures
            final(self).wf(),
            *final(self) == (Searcher { lmr: final(self).lmr, ..*old(self) }),
            forall|d: int, m: int|
                1 <= d < 64 && 1 <= m < 64 ==> #[trigger] final(self).lmr@[d * 64 + m] == tabled(d, m),
            forall|i: int|
                0 <= i < 4096 && (i < 64 || i % 64 == 0) ==> #[trigger] final(self).lmr@[i]
                    == old(self).lmr@[i],
    {
        let mut d: usize = 1;
        while d < 64
            invariant
                1 <= d <= 64,
                self.wf(),
                *self == (Searcher { lmr: self.lmr, ..*old(self) }),
                forall|i: int|
                    0 <= i < 4096 ==> #[trigger] self.lmr@[i] == if 64 <= i < d * 64 && i % 64 != 0 {
                        tabled(i / 64, i % 64)
                    } else {
                        old(self).lmr@[i] as int
                    },
            decreases 64 - d,
        {
            let x = ln1024(d as u32);
            proof {
                lemma_ln_small(d as int);
            }
            let mut m: usize = 1;
            while m < 64
                invariant
                    1 <= d < 64,
                    1 <= m <= 64,
                    x == ln_scaled(d as int),
                    0 <= x <= 4400,
                    self.wf(),
                    *self == (Searcher { lmr: self.lmr, ..*old(self) }),
                    forall|i: int|
                        0 <= i < 4096 ==> #[trigger] self.lmr@[i] == if 64 <= i < d * 64 + m && i % 64
                            != 0 {
                            tabled(i / 64, i % 64)
                        } else {
                            old(self).lmr@[i] as int
                        },
                decreases 64 - m,
            {
                let y = ln1024(m as u32);
                proof {
                    lemma_ln_small(m as int);
                    assert(0 <= x * y <= 4400 * 4400) by (nonlinear_arith)
                        requires
                            0 <= x <= 4400,
                            0 <= y <= 4400,
                    ;
                    let i = d * 64 + m;
                    assert(i / 64 == d && i % 64 == m);
                }
                self.lmr.set(d * 64 + m, 790 + x * y / 2417);
                m = m + 1;
            }
            proof {
                assert forall|i: int| 0 <= i < 4096 implies #[trigger] self.lmr@[i] == if 64 <= i < (d
                    + 1) * 64 && i % 64 != 0 {
                    tabled(i / 64, i % 64)
                } else {
                    old(self).lmr@[i] as int
                } by {}
            }
            d = d + 1;
        }
        proof {
            assert forall|d: int, m: int| 1 <= d < 64 && 1 <= m < 64 implies #[trigger] self.lmr@[d * 64
                + m] == tabled(d, m) by {
                let i = d * 64 + m;
                assert(i / 64 == d && i % 64 == m);
            }
        }
    }

    /// The defaults of a search thread.
    pub fn init_defaults(&mut self, id: usize)
        requires
            old(self).wf(),
            id < MAX_THREADS,
        ensures
            final(self).wf(),
            *final(self) == (Searcher {
                id,
                threads: 1,
                start_depth: 0,
                move_overhead: 25,
                limits: final(self).limits,
                ..*old(self)
            }),
            final(self).limits.depth == MAX_DEPTH,
            final(self).limits.nodes == u64::MAX,
            final(self).limits.movetime == 0,
            final(self).limits.time@ == seq![0u64, 0u64],
            final(self).limits.inc@ == seq![0u64, 0u64],
            final(self).limits.movestogo == 0,
            !final(self).limits.infinite,
    {
        self.id = id;
        self.threads = 1;
        self.start_depth = 0;
        self.move_overhead = 25;
        self.limits = Limits::new();
    }

    /// Forget everything that was learned.
    pub fn clear(&mut self)
        requires
            old(self).wf(),
        ensures
            final(self).wf(),
            final(self)@.emptied(old(self)@),
            final(self).kept(*old(self)),
            final(self).steady(*old(self)),
            final(self).cleared(*old(self)),
    {
        self.killers = moves_vec(264);
        self.history = vec![0i16; 8192];
        self.capt_hist = vec![0i16; 5376];
        self.counter = moves_vec(768);
        self.cont = vec![0i16; 1_182_722];
        self.corr_pawn = vec![0i32; 32_768];
        self.corr_np = vec![0i32; 32_768];
        self.corr_cont = vec![0i32; 1538];
        if self.id == 0 {
            infer::clear_cache(&mut self.net);
        }
        proof {
            assert(self@.blank()) by {
                assert(self@.history =~= zeros16(8192));
                assert(self@.capt_hist =~= zeros16(5376));
                assert(self@.cont =~= zeros16(1_182_722));
                assert(self@.corr_pawn =~= zeros32(32_768));
                assert(self@.corr_np =~= zeros32(32_768));
                assert(self@.corr_cont =~= zeros32(1538));
            }
        }
    }
}

/// The logarithms that the reduction table is made of are small.
proof fn lemma_ln_small(x: int)
    requires
        1 <= x < 64,
    ensures
        0 <= ln_scaled(x) <= 4400,
{
    reveal_with_fuel(log2_floor, 7);
    reveal_with_fuel(pow2, 7);
    let k = log2_floor(x);
    assert(0 <= k <= 5);
    assert(pow2(k) <= x < 2 * pow2(k));
    let p = pow2(k);
    let mant = (x - p) * 1024 / p;
    assert(0 <= mant < 1024) by {
        assert((x - p) * 1024 / p < 1024) by (nonlinear_arith)
            requires
                0 <= x - p < p,
        ;
        assert(0 <= (x - p) * 1024 / p) by (nonlinear_arith)
            requires
                0 <= x - p < p,
        ;
    }
    assert(0 <= mant * (1024 - mant) <= 262_144) by (nonlinear_arith)
        requires
            0 <= mant < 1024,
    ;
}

/// The leading one of a small number.
proof fn lemma_octave(x: int)
    requires
        1 <= x < 64,
    ensures
        log2_floor(x) == if x < 2 {
            0int
        } else if x < 4 {
            1
        } else if x < 8 {
            2
        } else if x < 16 {
            3
        } else if x < 32 {
            4
        } else {
            5
        },
        pow2(0) == 1,
        pow2(1) == 2,
        pow2(2) == 4,
        pow2(3) == 8,
        pow2(4) == 16,
        pow2(5) == 32,
{
    reveal_with_fuel(log2_floor, 7);
    reveal_with_fuel(pow2, 7);
}

/// `ln(x) * 1024`, rounded, for the arguments of the reduction table.
pub open spec fn ln_exact(x: int) -> int {
    if x == 2 {
        710
    } else if x == 3 {
        1125
    } else if x == 4 {
        1420
    } else if x == 5 {
        1648
    } else if x == 6 {
        1835
    } else if x == 7 {
        1993
    } else if x == 8 {
        2129
    } else if x == 9 {
        2250
    } else if x == 10 {
        2358
    } else if x == 11 {
        2455
    } else if x == 12 {
        2545
    } else if x == 13 {
        2627
    } else if x == 14 {
        2702
    } else if x == 15 {
        2773
    } else if x == 16 {
        2839
    } else if x == 17 {
        2901
    } else if x == 18 {
        2960
    } else if x == 19 {
        3015
    } else if x == 20 {
        3068
    } else if x == 21 {
        3118
    } else if x == 22 {
        3165
    } else if x == 23 {
        3211
    } else if x == 24 {
        3254
    } else if x == 25 {
        3296
    } else if x == 26 {
        3336
    } else if x == 27 {
        3375
    } else if x == 28 {
        3412
    } else if x == 29 {
        3448
    } else if x == 30 {
        3483
    } else if x == 31 {
        3516
    } else if x == 32 {
        3549
    } else if x == 33 {
        3580
    } else if x == 34 {
        3611
    } else if x == 35 {
        3641
    } else if x == 36 {
        3670
    } else if x == 37 {
        3698
    } else if x == 38 {
        3725
    } else if x == 39 {
        3751
    } else if x == 40 {
        3777
    } else if x == 41 {
        3803
    } else if x == 42 {
        3827
    } else if x == 43 {
        3851
    } else if x == 44 {
        3875
    } else if x == 45 {
        3898
    } else if x == 46 {
        3921
    } else if x == 47 {
        3943
    } else if x == 48 {
        3964
    } else if x == 49 {
        3985
    } else if x == 50 {
        4006
    } else if x == 51 {
        4026
    } else if x == 52 {
        4046
    } else if x == 53 {
        4066
    } else if x == 54 {
        4085
    } else if x == 55 {
        4104
    } else if x == 56 {
        4122
    } else if x == 57 {
        4140
    } else if x == 58 {
        4158
    } else if x == 59 {
        4175
    } else if x == 60 {
        4193
    } else if x == 61 {
        4210
    } else if x == 62 {
        4226
    } else if x == 63 {
        4243
    } else {
        0
    }
}

spec fn close(x: int) -> bool {
    geom::abs(ln_scaled(x) - ln_exact(x)) * 100 <= ln_exact(x)
}

proof fn lemma_close_1(x: int)
    requires
        1 <= x < 8,
    ensures
        close(x),
{
    lemma_octave(1);
    assert(mantissa(1, 1) == 0 && ln_from(0, 0) == 0);
    lemma_octave(2);
    assert(mantissa(2, 2) == 0 && ln_from(1, 0) == 709);
    lemma_octave(3);
    assert(mantissa(3, 2) == 512 && ln_from(1, 512) == 1122);
    lemma_octave(4);
    assert(mantissa(4, 4) == 0 && ln_from(2, 0) == 1418);
    lemma_octave(5);
    assert(mantissa(5, 4) == 256 && ln_from(2, 256) == 1639);
    lemma_octave(6);
    assert(mantissa(6, 4) == 512 && ln_from(2, 512) == 1831);
    lemma_octave(7);
    assert(mantissa(7, 4) == 768 && ln_from(2, 768) == 1994);
}

proof fn lemma_close_8(x: int)
    requires
        8 <= x < 16,
    ensures
        close(x),
{
    lemma_octave(8);
    assert(mantissa(8, 8) == 0 && ln_from(3, 0) == 2127);
    lemma_octave(9);
    assert(mantissa(9, 8) == 128 && ln_from(3, 128) == 2241);
    lemma_octave(10);
    assert(mantissa(10, 8) == 256 && ln_from(3, 256) == 2348);
    lemma_octave(11);
    assert(mantissa(11, 8) == 384 && ln_from(3, 384) == 2448);
    lemma_octave(12);
    assert(mantissa(12, 8) == 512 && ln_from(3, 512) == 2540);
    lemma_octave(13);
    assert(mantissa(13, 8) == 640 && ln_from(3, 640) == 2625);
    lemma_octave(14);
    assert(mantissa(14, 8) == 768 && ln_from(3, 768) == 2703);
    lemma_octave(15);
    assert(mantissa(15, 8) == 896 && ln_from(3, 896) == 2772);
}

proof fn lemma_close_16(x: int)
    requires
        16 <= x < 24,
    ensures
        close(x),
{
    lemma_octave(16);
    assert(mantissa(16, 16) == 0 && ln_from(4, 0) == 2836);
    lemma_octave(17);
    assert(mantissa(17, 16) == 64 && ln_from(4, 64) == 2894);
    lemma_octave(18);
    assert(mantissa(18, 16) == 128 && ln_from(4, 128) == 2950);
    lemma_octave(19);
    assert(mantissa(19, 16) == 192 && ln_from(4, 192) == 3004);
    lemma_octave(20);
    assert(mantissa(20, 16) == 256 && ln_from(4, 256) == 3057);
    lemma_octave(21);
    assert(mantissa(21, 16) == 320 && ln_from(4, 320) == 3108);
    lemma_octave(22);
    assert(mantissa(22, 16) == 384 && ln_from(4, 384) == 3157);
    lemma_octave(23);
    assert(mantissa(23, 16) == 448 && ln_from(4, 448) == 3204);
}

proof fn lemma_close_24(x: int)
    requires
        24 <= x < 32,
    ensures
        close(x),
{
    lemma_octave(24);
    assert(mantissa(24, 16) == 512 && ln_from(4, 512) == 3249);
    lemma_octave(25);
    assert(mantissa(25, 16) == 576 && ln_from(4, 576) == 3292);
    lemma_octave(26);
    assert(mantissa(26, 16) == 640 && ln_from(4, 640) == 3334);
    lemma_octave(27);
    assert(mantissa(27, 16) == 704 && ln_from(4, 704) == 3373);
    lemma_octave(28);
    assert(mantissa(28, 16) == 768 && ln_from(4, 768) == 3412);
    lemma_octave(29);
    assert(mantissa(29, 16) == 832 && ln_from(4, 832) == 3448);
    lemma_octave(30);
    assert(mantissa(30, 16) == 896 && ln_from(4, 896) == 3481);
    lemma_octave(31);
    assert(mantissa(31, 16) == 960 && ln_from(4, 960) == 3514);
}

proof fn lemma_close_32(x: int)
    requires
        32 <= x < 40,
    ensures
        close(x),
{
    lemma_octave(32);
    assert(mantissa(32, 32) == 0 && ln_from(5, 0) == 3545);
    lemma_octave(33);
    assert(mantissa(33, 32) == 32 && ln_from(5, 32) == 3574);
    lemma_octave(34);
    assert(mantissa(34, 32) == 64 && ln_from(5, 64) == 3603);
    lemma_octave(35);
    assert(mantissa(35, 32) == 96 && ln_from(5, 96) == 3631);
    lemma_octave(36);
    assert(mantissa(36, 32) == 128 && ln_from(5, 128) == 3659);
    lemma_octave(37);
    assert(mantissa(37, 32) == 160 && ln_from(5, 160) == 3686);
    lemma_octave(38);
    assert(mantissa(38, 32) == 192 && ln_from(5, 192) == 3713);
    lemma_octave(39);
    assert(mantissa(39, 32) == 224 && ln_from(5, 224) == 3740);
}

proof fn lemma_close_40(x: int)
    requires
        40 <= x < 48,
    ensures
        close(x),
{
    lemma_octave(40);
    assert(mantissa(40, 32) == 256 && ln_from(5, 256) == 3766);
    lemma_octave(41);
    assert(mantissa(41, 32) == 288 && ln_from(5, 288) == 3792);
    lemma_octave(42);
    assert(mantissa(42, 32) == 320 && ln_from(5, 320) == 3817);
    lemma_octave(43);
    assert(mantissa(43, 32) == 352 && ln_from(5, 352) == 3842);
    lemma_octave(44);
    assert(mantissa(44, 32) == 384 && ln_from(5, 384) == 3866);
    lemma_octave(45);
    assert(mantissa(45, 32) == 416 && ln_from(5, 416) == 3889);
    lemma_octave(46);
    assert(mantissa(46, 32) == 448 && ln_from(5, 448) == 3913);
    lemma_octave(47);
    assert(mantissa(47, 32) == 480 && ln_from(5, 480) == 3936);
}

proof fn lemma_close_48(x: int)
    requires
        48 <= x < 56,
    ensures
        close(x),
{
    lemma_octave(48);
    assert(mantissa(48, 32) == 512 && ln_from(5, 512) == 3958);
    lemma_octave(49);
    assert(mantissa(49, 32) == 544 && ln_from(5, 544) == 3980);
    lemma_octave(50);
    assert(mantissa(50, 32) == 576 && ln_from(5, 576) == 4001);
    lemma_octave(51);
    assert(mantissa(51, 32) == 608 && ln_from(5, 608) == 4022);
    lemma_octave(52);
    assert(mantissa(52, 32) == 640 && ln_from(5, 640) == 4043);
    lemma_octave(53);
    assert(mantissa(53, 32) == 672 && ln_from(5, 672) == 4063);
    lemma_octave(54);
    assert(mantissa(54, 32) == 704 && ln_from(5, 704) == 4082);
    lemma_octave(55);
    assert(mantissa(55, 32) == 736 && ln_from(5, 736) == 4102);
}

proof fn lemma_close_56(x: int)
    requires
        56 <= x < 64,
    ensures
        close(x),
{
    lemma_octave(56);
    assert(mantissa(56, 32) == 768 && ln_from(5, 768) == 4121);
    lemma_octave(57);
    assert(mantissa(57, 32) == 800 && ln_from(5, 800) == 4139);
    lemma_octave(58);
    assert(mantissa(58, 32) == 832 && ln_from(5, 832) == 4157);
    lemma_octave(59);
    assert(mantissa(59, 32) == 864 && ln_from(5, 864) == 4174);
    lemma_octave(60);
    assert(mantissa(60, 32) == 896 && ln_from(5, 896) == 4190);
    lemma_octave(61);
    assert(mantissa(61, 32) == 928 && ln_from(5, 928) == 4207);
    lemma_octave(62);
    assert(mantissa(62, 32) == 960 && ln_from(5, 960) == 4223);
    lemma_octave(63);
    assert(mantissa(63, 32) == 992 && ln_from(5, 992) == 4238);
}

/// The logarithm is within one percent, for every argument of the reduction
/// table.
pub proof fn law_logarithm_is_close(x: int)
    requires
        1 <= x < 64,
    ensures
        geom::abs(ln_scaled(x) - ln_exact(x)) * 100 <= ln_exact(x),
{
    if x < 8 {
        lemma_close_1(x);
    } else if x < 16 {
        lemma_close_8(x);
    } else if x < 24 {
        lemma_close_16(x);
    } else if x < 32 {
        lemma_close_24(x);
    } else if x < 40 {
        lemma_close_32(x);
    } else if x < 48 {
        lemma_close_40(x);
    } else if x < 56 {
        lemma_close_48(x);
    } else {
        lemma_close_56(x);
    }
}

/// Doubling a number adds the logarithm of two, within one part in a thousand,
/// so that the error never grows.
pub proof fn law_doubling_adds_a_constant(x: int)
    requires
        1 <= x,
    ensures
        709 <= ln_scaled(2 * x) - ln_scaled(x) <= 710,
{
    assert(2 * x / 2 == x);
    let k = log2_floor(x);
    assert(log2_floor(2 * x) == k + 1);
    lemma_log2(x);
    let p = pow2(k);
    assert(pow2(k + 1) == 2 * p);
    let r = x - p;
    assert((2 * r) * 1024 / (2 * p) == r * 1024 / p) by (nonlinear_arith)
        requires
            p >= 1,
            r >= 0,
    ;
}

proof fn lemma_log2(x: int)
    requires
        1 <= x,
    ensures
        log2_floor(x) >= 0,
        1 <= pow2(log2_floor(x)) <= x,
    decreases x,
{
    if x > 1 {
        lemma_log2(x / 2);
    }
}

fn moves_vec(n: usize) -> (v: Vec<Move>)
    ensures
        v@ == no_moves(n as nat),
{
    let mut v: Vec<Move> = Vec::new();
    while v.len() < n
        invariant
            v@.len() <= n,
            forall|i: int| 0 <= i < v@.len() ==> #[trigger] v@[i] == Move(0),
        decreases n - v@.len(),
    {
        v.push(Move::null());
    }
    assert(v@ =~= no_moves(n as nat));
    v
}

fn nodes_vec(n: usize) -> (v: Vec<Node>)
    ensures
        v@ == Seq::new(n as nat, |i: int| no_node()),
{
    let mut v: Vec<Node> = Vec::new();
    while v.len() < n
        invariant
            v@.len() <= n,
            forall|i: int| 0 <= i < v@.len() ==> #[trigger] v@[i] == no_node(),
        decreases n - v@.len(),
    {
        v.push(Node { mv: Move::null(), piece_to: 0, eval: 0 });
    }
    assert(v@ =~= Seq::new(n as nat, |i: int| no_node()));
    v
}

} // verus!
