//! What is remembered, for how long, and which way it pulls.

use vstd::prelude::*;
use vstd::string::*;
use crate::clock;
use crate::eval;
use crate::geom;
use crate::infer;
use crate::io;
use crate::learn;
use crate::mind;
use crate::mind::{Limits, World};
use crate::moves::Move;
use crate::orders;
use crate::orders::Bounds;
use crate::pos;
use crate::pos::Position;
use crate::see;
use crate::text;
use crate::think;
use crate::tt;
use crate::tt::Table;
use crate::twin;
use crate::uci;

verus! {

// ---------------------------------------------------------------------------
// Histories
// ---------------------------------------------------------------------------

/// A bonus raises a history value until it is full, a malus lowers it, and what
/// is done to the opposite value is the opposite.
pub proof fn law_rewards_raise_and_punishments_lower(v: int, bonus: int)
    requires
        -16_384 <= v <= 16_384,
    ensures
        bonus > 0 ==> v <= learn::pulled(v, bonus),
        bonus > 0 && v < 16_384 ==> v < learn::pulled(v, bonus),
        bonus < 0 ==> learn::pulled(v, bonus) <= v,
        bonus < 0 && v > -16_384 ==> learn::pulled(v, bonus) < v,
        bonus == 0 ==> learn::pulled(v, bonus) == v,
        learn::pulled(-v, -bonus) == -learn::pulled(v, bonus),
        v == 0 ==> learn::pulled(v, bonus) == mind::clamp(bonus, -1200, 1200),
{
    let b = mind::clamp(bonus, -1200, 1200);
    let a = geom::abs(b);
    let x = v * a;
    assert((-v) * a == -x) by (nonlinear_arith)
        requires
            x == v * a,
    ;
    if v == 16_384 {
        assert(x == 16_384 * a);
    } else if v == -16_384 {
        assert(x == -16_384 * a);
    } else if a > 0 {
        assert(-16_384 * a < x < 16_384 * a) by (nonlinear_arith)
            requires
                -16_384 < v < 16_384,
                a > 0,
                x == v * a,
        ;
    }
    assert(a == 0 ==> x == 0) by (nonlinear_arith)
        requires
            x == v * a,
    ;
    assert(v == 0 ==> x == 0) by (nonlinear_arith)
        requires
            x == v * a,
    ;
}

/// `h` may be looked up in `w` for `m`.
spec fn at_home(w: World, p: Position, ply: int) -> bool {
    &&& w.wf()
    &&& p.board_ok()
    &&& p.stm < 2
    &&& 0 <= ply < 128
}

/// A reward makes the tables think better of a quiet move, a punishment worse;
/// of another way to move nothing changes in the table that knows only where a
/// move leaves and goes to.
pub proof fn law_rewards_are_remembered(
    w: World,
    p: Position,
    m: Move,
    ply: int,
    bonus: int,
    other: Move,
)
    requires
        w.wf(),
        p.board_ok(),
        p.stm < 2,
        0 <= ply < 128,
    ensures
        ({
            let u = w.rewarded(p, m, ply, bonus);
            let h = p.stm * 4096 + m.f() * 64 + m.t();
            &&& bonus > 0 ==> u.quiet_sum(p, m, ply) >= w.quiet_sum(p, m, ply)
            &&& bonus > 0 && w.history[h] < 16_384 ==> {
                &&& u.history[h] > w.history[h]
                &&& u.quiet_sum(p, m, ply) > w.quiet_sum(p, m, ply)
            }
            &&& bonus < 0 ==> u.quiet_sum(p, m, ply) <= w.quiet_sum(p, m, ply)
            &&& bonus < 0 && w.history[h] > -16_384 ==> {
                &&& u.history[h] < w.history[h]
                &&& u.quiet_sum(p, m, ply) < w.quiet_sum(p, m, ply)
            }
            &&& other.f() != m.f() || other.t() != m.t() ==> u.history[p.stm * 4096 + other.f() * 64
                + other.t()] == w.history[p.stm * 4096 + other.f() * 64 + other.t()]
            &&& u.capt_hist == w.capt_hist
        }),
{
    reveal(World::rewarded);
    let (p1, p2) = (w.prev(ply, 1), w.prev(ply, 2));
    if ply >= 1 {
        assert(w.stack[ply - 1].piece_to <= 768);
    }
    if ply >= 2 {
        assert(w.stack[ply - 2].piece_to <= 768);
    }
    learn::lemma_indices(p, m, p1, p2);
    let h = learn::hist_at(p, m);
    let (i, j) = (
        learn::cont_at(0, p1, learn::step_of(p, m)),
        learn::cont_at(1, p2, learn::step_of(p, m)),
    );
    assert(-16_384 <= w.history[h] <= 16_384);
    assert(-16_384 <= w.cont[i] <= 16_384);
    assert(-16_384 <= w.cont[j] <= 16_384);
    law_rewards_raise_and_punishments_lower(w.history[h] as int, bonus);
    law_rewards_raise_and_punishments_lower(w.cont[i] as int, bonus);
    law_rewards_raise_and_punishments_lower(w.cont[j] as int, bonus);
    learn::law_gravity_is_bounded(w.history[h] as int, bonus);
    learn::law_gravity_is_bounded(w.cont[i] as int, bonus);
    learn::law_gravity_is_bounded(w.cont[j] as int, bonus);
}

proof fn lemma_rewarded(w: World, p: Position, m: Move, ply: int, bonus: int)
    requires
        at_home(w, p, ply),
    ensures
        ({
            let u = w.rewarded(p, m, ply, bonus);
            let h = learn::hist_at(p, m);
            &&& at_home(u, p, ply)
            &&& 0 <= h < 8192
            &&& u.history == w.history.update(
                h,
                learn::pulled(w.history[h] as int, bonus) as i16,
            )
            &&& u.history[h] == learn::pulled(w.history[h] as int, bonus)
            &&& u.killers == w.killers
            &&& u.counter == w.counter
            &&& u.stack == w.stack
            &&& u.capt_hist == w.capt_hist
        }),
{
    reveal(World::rewarded);
    let (p1, p2) = (w.prev(ply, 1), w.prev(ply, 2));
    if ply >= 1 {
        assert(w.stack[ply - 1].piece_to <= 768);
    }
    if ply >= 2 {
        assert(w.stack[ply - 2].piece_to <= 768);
    }
    learn::lemma_indices(p, m, p1, p2);
    let h = learn::hist_at(p, m);
    let (i, j) = (
        learn::cont_at(0, p1, learn::step_of(p, m)),
        learn::cont_at(1, p2, learn::step_of(p, m)),
    );
    assert(-16_384 <= w.history[h] <= 16_384);
    assert(-16_384 <= w.cont[i] <= 16_384);
    assert(-16_384 <= w.cont[j] <= 16_384);
    learn::law_gravity_is_bounded(w.history[h] as int, bonus);
    learn::law_gravity_is_bounded(w.cont[i] as int, bonus);
    learn::law_gravity_is_bounded(w.cont[j] as int, bonus);
}

/// Punishing quiet moves lowers what is known of them, and only that.
proof fn lemma_punished(
    w: World,
    p: Position,
    l: Seq<Move>,
    best: Move,
    ply: int,
    malus: int,
    n: nat,
    h: int,
)
    requires
        at_home(w, p, ply),
        malus < 0,
        n <= l.len(),
        0 <= h < 8192,
    ensures
        ({
            let u = w.quiets_punished(p, l, best, ply, malus, n);
            &&& at_home(u, p, ply)
            &&& u.killers == w.killers
            &&& u.counter == w.counter
            &&& u.stack == w.stack
            &&& u.capt_hist == w.capt_hist
            &&& u.history[h] <= w.history[h]
            &&& (forall|j: int|
                0 <= j < n && #[trigger] l[j] != best ==> learn::hist_at(p, l[j]) != h)
                ==> u.history[h] == w.history[h]
            &&& forall|j: int|
                0 <= j < n && #[trigger] l[j] != best && learn::hist_at(p, l[j]) == h
                    && w.history[h] > -16_384 ==> u.history[h] < w.history[h]
        }),
    decreases n,
{
    if n > 0 {
        let k = (n - 1) as nat;
        lemma_punished(w, p, l, best, ply, malus, k, h);
        let v = w.quiets_punished(p, l, best, ply, malus, k);
        if l[n - 1] != best {
            lemma_rewarded(v, p, l[n - 1], ply, malus);
            let g = learn::hist_at(p, l[n - 1]);
            assert(-16_384 <= v.history[g] <= 16_384);
            law_rewards_raise_and_punishments_lower(v.history[g] as int, malus);
        }
    }
}

proof fn lemma_captures_punished(
    w: World,
    p: Position,
    l: Seq<Move>,
    best: Move,
    malus: int,
    n: nat,
    h: int,
)
    requires
        mind::tame(w.capt_hist, 5376),
        p.board_ok(),
        p.stm < 2,
        malus < 0,
        n <= l.len(),
        0 <= h < 5376,
    ensures
        ({
            let u = w.captures_punished(p, l, best, malus, n);
            &&& mind::tame(u.capt_hist, 5376)
            &&& u == (World { capt_hist: u.capt_hist, ..w })
            &&& u.capt_hist[h] <= w.capt_hist[h]
            &&& (forall|j: int|
                0 <= j < n && #[trigger] l[j] != best ==> learn::capt_at(p, l[j]) != h)
                ==> u.capt_hist[h] == w.capt_hist[h]
            &&& forall|j: int|
                0 <= j < n && #[trigger] l[j] != best && learn::capt_at(p, l[j]) == h
                    && w.capt_hist[h] > -16_384 ==> u.capt_hist[h] < w.capt_hist[h]
        }),
    decreases n,
{
    if n > 0 {
        let k = (n - 1) as nat;
        lemma_captures_punished(w, p, l, best, malus, k, h);
        let v = w.captures_punished(p, l, best, malus, k);
        if l[n - 1] != best {
            learn::lemma_indices(p, l[n - 1], 0, 0);
            let g = learn::capt_at(p, l[n - 1]);
            assert(-16_384 <= v.capt_hist[g] <= 16_384);
            law_rewards_raise_and_punishments_lower(v.capt_hist[g] as int, malus);
            learn::law_gravity_is_bounded(v.capt_hist[g] as int, malus);
        }
    }
}

/// A quiet move that cut a node off is remembered: its history rises, it becomes
/// the ply's first killer, the killer before it the second, and it is the answer
/// to the move before. The quiet moves that were tried in vain sink.
pub proof fn law_quiet_cutoffs_are_remembered(
    w: World,
    p: Position,
    best: Move,
    ply: int,
    depth: int,
    quiets: Seq<Move>,
    takes: Seq<Move>,
    j: int,
)
    requires
        w.wf(),
        p.board_ok(),
        p.stm < 2,
        0 <= ply < 128,
        depth >= 1,
        // Neither a capture nor a promotion of the same pawn.
        (best.k() / 4) % 2 == 0,
        forall|i: int|
            0 <= i < quiets.len() && #[trigger] quiets[i] != best ==> quiets[i].f() != best.f()
                || quiets[i].t() != best.t(),
        0 <= j < quiets.len() ==> quiets[j] != best,
    ensures
        ({
            let u = w.credited(p, best, ply, depth, quiets, takes);
            let h = p.stm * 4096 + best.f() * 64 + best.t();
            let prev = w.prev(ply, 1);
            &&& u.history[h] >= w.history[h]
            &&& w.history[h] < 16_384 ==> u.history[h] > w.history[h]
            &&& u.killers[ply * 2] == best
            &&& w.killers[ply * 2] != best ==> u.killers[ply * 2 + 1] == w.killers[ply * 2]
            &&& w.killers[ply * 2] == best ==> u.killers == w.killers
            &&& prev != 0 ==> u.counter[prev - 1] == best
            &&& 0 <= j < quiets.len() ==> {
                let g = p.stm * 4096 + quiets[j].f() * 64 + quiets[j].t();
                &&& u.history[g] <= w.history[g]
                &&& w.history[g] > -16_384 ==> u.history[g] < w.history[g]
            }
        }),
{
    reveal(World::credited);
    reveal(World::killed);
    reveal(World::countered);
    let bonus = mind::clamp(155 * depth - 80, 0, 1200);
    lemma_rewarded(w, p, best, ply, bonus);
    let a = w.rewarded(p, best, ply, bonus);
    let h = learn::hist_at(p, best);
    assert(-16_384 <= w.history[h] <= 16_384);
    law_rewards_raise_and_punishments_lower(w.history[h] as int, bonus);
    let b = a.killed(ply, best).countered(ply, best);
    let prev = w.prev(ply, 1);
    if ply >= 1 {
        assert(w.stack[ply - 1].piece_to <= 768);
    }
    assert(at_home(b, p, ply));
    lemma_punished(b, p, quiets, best, ply, -bonus, quiets.len(), h);
    let c = b.quiets_punished(p, quiets, best, ply, -bonus, quiets.len());
    if 0 <= j < quiets.len() {
        learn::lemma_indices(p, quiets[j], 0, 0);
        let g = learn::hist_at(p, quiets[j]);
        lemma_punished(b, p, quiets, best, ply, -bonus, quiets.len(), g);
    }
    lemma_captures_punished(c, p, takes, best, -bonus, takes.len(), 0);
}

/// A capture that cut a node off rises, the captures that were tried in vain
/// sink, and no quiet history changes. Captures of the same kind of piece on the
/// same square by the same kind of piece share what is known of them.
pub proof fn law_capture_cutoffs_are_remembered(
    w: World,
    p: Position,
    best: Move,
    ply: int,
    depth: int,
    quiets: Seq<Move>,
    takes: Seq<Move>,
    j: int,
)
    requires
        w.wf(),
        p.board_ok(),
        p.stm < 2,
        depth >= 1,
        (best.k() / 4) % 2 == 1,
        forall|i: int|
            0 <= i < takes.len() && #[trigger] takes[i] != best ==> learn::capt_at(p, takes[i])
                != learn::capt_at(p, best),
        0 <= j < takes.len() ==> takes[j] != best,
    ensures
        ({
            let u = w.credited(p, best, ply, depth, quiets, takes);
            let h = learn::capt_at(p, best);
            &&& u.capt_hist[h] >= w.capt_hist[h]
            &&& w.capt_hist[h] < 16_384 ==> u.capt_hist[h] > w.capt_hist[h]
            &&& u.history == w.history
            &&& u.killers == w.killers
            &&& u.counter == w.counter
            &&& 0 <= j < takes.len() ==> {
                let g = learn::capt_at(p, takes[j]);
                &&& u.capt_hist[g] <= w.capt_hist[g]
                &&& w.capt_hist[g] > -16_384 ==> u.capt_hist[g] < w.capt_hist[g]
            }
        }),
{
    reveal(World::credited);
    let bonus = mind::clamp(155 * depth - 80, 0, 1200);
    let h = learn::capt_at(p, best);
    learn::lemma_indices(p, best, 0, 0);
    assert(-16_384 <= w.capt_hist[h] <= 16_384);
    law_rewards_raise_and_punishments_lower(w.capt_hist[h] as int, bonus);
    learn::law_gravity_is_bounded(w.capt_hist[h] as int, bonus);
    let a = w.capt_rewarded(p, best, bonus);
    lemma_captures_punished(a, p, takes, best, -bonus, takes.len(), h);
    if 0 <= j < takes.len() {
        learn::lemma_indices(p, takes[j], 0, 0);
        lemma_captures_punished(
            a,
            p,
            takes,
            best,
            -bonus,
            takes.len(),
            learn::capt_at(p, takes[j]),
        );
    }
}

/// Of two captures that pay, and of which as much is known, the one with the
/// larger victim is tried first.
pub proof fn law_larger_victims_come_first(
    w: World,
    p: Position,
    tt_move: Move,
    ply: int,
    thresh: int,
    a: Move,
    b: Move,
)
    requires
        w.wf(),
        p.board_ok(),
        p.stm < 2,
        0 <= ply < 128,
        a.k() == 4 && b.k() == 4,
        a != tt_move && b != tt_move,
        (see::see(p, a) >= thresh) == (see::see(p, b) >= thresh),
        w.capt_hist[learn::capt_at(p, a)] == w.capt_hist[learn::capt_at(p, b)],
        p.cells()[a.t()] < 12 && p.cells()[b.t()] < 12,
        p.cells()[a.t()] % 6 > p.cells()[b.t()] % 6,
    ensures
        w.rank(p, a, tt_move, ply, thresh) > w.rank(p, b, tt_move, ply, thresh),
{
    pos::lemma_cells(p, a.t());
    pos::lemma_cells(p, b.t());
    let (x, y) = (see::taken(p, a), see::taken(p, b));
    assert(0 <= y < x <= 5);
    assert(eval::SEE_VAL@[x] > eval::SEE_VAL@[y]);
}

// ---------------------------------------------------------------------------
// Corrections
// ---------------------------------------------------------------------------

/// What an entry is taught moves it toward the residual, never past it, and a
/// deeper search moves it further.
pub proof fn law_corrections_move_toward_the_truth(e: int, diff: int, depth: int, deeper: int)
    requires
        -12_288 <= e <= 12_288,
        0 <= depth <= deeper,
    ensures
        ({
            let goal = 256 * mind::clamp(diff, -256, 256);
            let (x, y) = (learn::blended(e, diff, depth), learn::blended(e, diff, deeper));
            &&& e <= goal ==> e <= x <= goal && x <= y
            &&& e >= goal ==> goal <= x <= e && y <= x
        }),
{
    let d = mind::clamp(diff, -256, 256);
    let goal = 256 * d;
    let (v, w) = (eval::min(depth + 1, 16), eval::min(deeper + 1, 16));
    let (x, y) = (e * (256 - v) + d * 256 * v, e * (256 - w) + d * 256 * w);
    assert(e <= goal ==> 256 * e <= x <= y <= 256 * goal) by (nonlinear_arith)
        requires
            goal == 256 * d,
            1 <= v <= w <= 16,
            x == e * (256 - v) + d * 256 * v,
            y == e * (256 - w) + d * 256 * w,
    ;
    assert(e >= goal ==> 256 * e >= x >= y >= 256 * goal) by (nonlinear_arith)
        requires
            goal == 256 * d,
            1 <= v <= w <= 16,
            x == e * (256 - v) + d * 256 * v,
            y == e * (256 - w) + d * 256 * w,
    ;
}

/// Where the correction tables keep a position: one slot for its pawns, one for
/// its pieces, and one for the last move.
pub open spec fn pawn_slot(p: Position) -> int {
    p.stm * 16_384 + p.pawn_key % 16_384
}

pub open spec fn piece_slot(p: Position) -> int {
    p.stm * 16_384 + p.np_key % 16_384
}

pub open spec fn move_slot(w: World, p: Position, ply: int) -> int {
    p.stm * 769 + w.prev(ply, 1)
}

/// The evaluation goes with its corrections: where every table says at least as
/// much, the corrected evaluation is at least as high; and where one says clearly
/// more, it is higher, up to the limit of a correction.
pub proof fn law_evaluations_follow_their_corrections(
    a: World,
    b: World,
    p: Position,
    ply: int,
    raw: int,
)
    requires
        a.stack == b.stack,
        a.corr_pawn[pawn_slot(p)] <= b.corr_pawn[pawn_slot(p)],
        a.corr_np[piece_slot(p)] <= b.corr_np[piece_slot(p)],
        a.prev(ply, 1) != 0 ==> a.corr_cont[move_slot(a, p, ply)] <= b.corr_cont[move_slot(
            a,
            p,
            ply,
        )],
    ensures
        a.corrected(p, ply, raw) <= b.corrected(p, ply, raw),
        (a.corr_pawn[pawn_slot(p)] + 1024 <= b.corr_pawn[pawn_slot(p)] || a.corr_np[piece_slot(p)]
            + 1024 <= b.corr_np[piece_slot(p)] || a.prev(ply, 1) != 0 && a.corr_cont[move_slot(
            a,
            p,
            ply,
        )] + 1024 <= b.corr_cont[move_slot(a, p, ply)]) && -30_000 < raw < 30_000 && a.corrected(
            p,
            ply,
            raw,
        ) < raw + 72 && b.corrected(p, ply, raw) > raw - 72 ==> a.corrected(p, ply, raw)
            < b.corrected(p, ply, raw),
{
    reveal(World::corrected);
    let (x, y) = (a.corr_pawn[pawn_slot(p)] as int, b.corr_pawn[pawn_slot(p)] as int);
    assert(eval::quot(x * 3, 2) <= eval::quot(y * 3, 2));
    assert(x + 1024 <= y ==> eval::quot(x * 3, 2) + 1024 <= eval::quot(y * 3, 2));
}

/// A node that turned out better than it was thought to be raises what its
/// position is corrected by next time, and one that turned out worse lowers it.
pub proof fn law_surprises_are_learned(w: World, p: Position, ply: int, diff: int, depth: int, raw: int)
    requires
        w.wf(),
        p.stm < 2,
        0 <= ply < 128,
        depth >= 0,
    ensures
        diff >= 48 ==> w.taught(p, ply, diff, depth).corrected(p, ply, raw) >= w.corrected(
            p,
            ply,
            raw,
        ),
        diff <= -48 ==> w.taught(p, ply, diff, depth).corrected(p, ply, raw) <= w.corrected(
            p,
            ply,
            raw,
        ),
{
    reveal(World::taught);
    let u = w.taught(p, ply, diff, depth);
    if ply >= 1 {
        assert(w.stack[ply - 1].piece_to <= 768);
    }
    let (i, j, k) = (pawn_slot(p), piece_slot(p), move_slot(w, p, ply));
    assert(-12_288 <= w.corr_pawn[i] <= 12_288);
    assert(-12_288 <= w.corr_np[j] <= 12_288);
    assert(-12_288 <= w.corr_cont[k] <= 12_288);
    law_corrections_move_toward_the_truth(w.corr_pawn[i] as int, diff, depth, depth);
    law_corrections_move_toward_the_truth(w.corr_np[j] as int, diff, depth, depth);
    law_corrections_move_toward_the_truth(w.corr_cont[k] as int, diff, depth, depth);
    if diff >= 48 {
        law_evaluations_follow_their_corrections(w, u, p, ply, raw);
    }
    if diff <= -48 {
        law_evaluations_follow_their_corrections(u, w, p, ply, raw);
    }
}

/// Late moves are reduced more, and so are the moves of deep nodes: with every
/// doubling of either.
pub proof fn law_late_and_deep_moves_are_reduced_more(d: int, m: int)
    requires
        1 <= d < 64,
        1 <= m < 64,
    ensures
        mind::tabled(2 * d, m) >= mind::tabled(d, m),
        mind::tabled(d, 2 * m) >= mind::tabled(d, m),
        m >= 40 ==> mind::tabled(2 * d, m) >= mind::tabled(d, m) + 1000,
        d >= 40 ==> mind::tabled(d, 2 * m) >= mind::tabled(d, m) + 1000,
{
    mind::law_doubling_adds_a_constant(d);
    mind::law_doubling_adds_a_constant(m);
    mind::law_logarithm_is_close(d);
    mind::law_logarithm_is_close(m);
    let (a, b, x, y) = (
        mind::ln_scaled(d),
        mind::ln_scaled(2 * d),
        mind::ln_scaled(m),
        mind::ln_scaled(2 * m),
    );
    assert(mind::ln_exact(m) >= 0 && mind::ln_exact(d) >= 0);
    assert(x >= 0 && a >= 0);
    assert(b * x >= a * x + 709 * x) by (nonlinear_arith)
        requires
            b >= a + 709,
            x >= 0,
    ;
    assert(a * y >= a * x + 709 * a) by (nonlinear_arith)
        requires
            y >= x + 709,
            a >= 0,
    ;
}

// ---------------------------------------------------------------------------
// Lines
// ---------------------------------------------------------------------------

/// The line of a ply is its move and then the line of the next ply; the lines of
/// the other plies stay.
pub proof fn law_a_line_is_a_move_and_the_next_line(w: World, ply: int, m: Move, i: int)
    requires
        twin::lined_up(w),
        0 <= ply < 127,
    ensures
        ({
            let u = w.lined(ply, m);
            &&& u.pv[ply * 128] == m
            &&& u.pv_len[ply] == w.pv_len[ply + 1] + 1
            &&& 0 <= i < w.pv_len[ply + 1] ==> u.pv[ply * 128 + 1 + i] == w.pv[(ply + 1) * 128 + i]
            &&& 0 <= i < 128 && i != ply ==> u.pv_len[i] == w.pv_len[i]
            &&& 0 <= i < ply * 128 || (ply + 1) * 128 <= i < 16_384 ==> u.pv[i] == w.pv[i]
        }),
{
    reveal(World::lined);
    assert(w.pv_len[ply + 1] <= 127 - ply);
}

// ---------------------------------------------------------------------------
// The table
// ---------------------------------------------------------------------------

/// A mate is kept by its distance from the node it was found at, wherever that
/// was: stored at one ply and read at another, it is as many plies away from the
/// one as it was from the other. Other scores are kept as they are.
pub proof fn law_mates_are_kept_by_their_distance(away: int, ply: int, other: int)
    requires
        0 <= away,
        0 <= ply,
        0 <= other,
        away + ply <= 128,
        away + other <= 128,
    ensures
        tt::unbased(tt::rebased(32_000 - away - ply, ply), other) == 32_000 - away - other,
        tt::unbased(tt::rebased(away + ply - 32_000, ply), other) == away + other - 32_000,
        forall|v: int| -31_872 < v < 31_872 ==> #[trigger] tt::rebased(v, ply) == v,
        forall|v: int| -31_872 < v < 31_872 ==> #[trigger] tt::unbased(v, other) == v,
{
}

/// A store takes an entry of the same position, or a free one, before any other;
/// and if it has to drop one, none of the four is worth less: an entry is worth
/// its depth, less four plies for every search since.
pub proof fn law_the_least_valuable_entry_goes(t: Table, key: u64, i: int)
    requires
        0 <= i < 4,
    ensures
        ({
            let s = t.slot(key);
            let worth = |j: int|
                tt::depth_in(t.data(key, j)) - 4 * ((t.gen - tt::gen_in(t.data(key, j))) % 64);
            &&& 0 <= s < 4
            &&& t.is_for(key, i) || tt::bound_in(t.data(key, i)) == 0 ==> t.is_for(key, s)
                || tt::bound_in(t.data(key, s)) == 0
            &&& !t.is_for(key, s) && tt::bound_in(t.data(key, s)) != 0 ==> worth(s) <= worth(i)
        }),
{
    reveal_with_fuel(Table::cheapest, 5);
    assert forall|j: int| 0 <= j < 4 implies #[trigger] t.value(key, j) == tt::depth_in(
        t.data(key, j),
    ) - 4 * ((t.gen - tt::gen_in(t.data(key, j))) % 64) by {
        let x = t.gen - tt::gen_in(t.data(key, j));
        assert((x + 64) % 64 == x % 64);
    }
    assert(t.value(key, 0) == t.value(key, 0) && t.value(key, 1) == t.value(key, 1) && t.value(
        key,
        2,
    ) == t.value(key, 2) && t.value(key, 3) == t.value(key, 3));
}

/// An entry of the same position that was searched more than a few plies deeper
/// stays as it is, but for a new move; an exact result always replaces it.
pub proof fn law_deeper_entries_stay(
    t: Table,
    key: u64,
    mv: Move,
    score: int,
    eval: int,
    depth: int,
    bound: int,
    ply: int,
)
    requires
        t.is_for(key, t.slot(key)),
        bound != 3,
        depth + 4 <= tt::depth_in(t.data(key, t.slot(key))),
    ensures
        ({
            let d = t.data(key, t.slot(key));
            let n = t.written(key, mv, score, eval, depth, bound, ply) as u64;
            &&& tt::score_in(n) == tt::score_in(d)
            &&& tt::eval_in(n) == tt::eval_in(d)
            &&& tt::depth_in(n) == tt::depth_in(d)
            &&& tt::bound_in(n) == tt::bound_in(d)
            &&& tt::gen_in(n) == tt::gen_in(d)
            &&& tt::mv_in(n) == if mv.0 == 0 {
                tt::mv_in(d)
            } else {
                mv.0 as int
            }
        }),
{
    reveal(tt::score_in);
    reveal(tt::eval_in);
    reveal(tt::depth_in);
    reveal(tt::bound_in);
    reveal(tt::gen_in);
    reveal(tt::mv_in);
    let d = t.data(key, t.slot(key));
    let keep = if mv.0 == 0 {
        (d % 65536) as int
    } else {
        mv.0 as int
    };
    let n = d - (d % 65536) + keep;
    let q = (d / 65536) as int;
    assert(d == q * 65536 + d % 65536);
    assert(n == q * 65536 + keep);
    assert(0 <= n <= u64::MAX);
    assert(n / 65536 == q && n % 65536 == keep);
    assert(n / 4294967296 == q / 65536 && d as int / 4294967296 == q / 65536);
    assert(n / 281474976710656 == q / 4294967296 && d as int / 281474976710656 == q / 4294967296);
    assert(n / 72057594037927936 == q / 1099511627776 && d as int / 72057594037927936 == q
        / 1099511627776);
    assert(n / 288230376151711744 == q / 4398046511104 && d as int / 288230376151711744 == q
        / 4398046511104);
}

/// How full a table is, is how many of its entries the current search wrote:
/// with none among those that are looked at it is empty, with nothing else it is
/// full.
pub proof fn law_fullness_counts_the_current_search(t: Table)
    ensures
        (forall|i: int|
            0 <= i < 4 * t.clusters && i < 4000 ==> tt::bound_in(#[trigger] t.mem[2 * i + 1]) == 0
                || tt::gen_in(t.mem[2 * i + 1]) != t.gen) ==> t.full() == 0,
        t.clusters > 0 && (forall|i: int|
            0 <= i < 4 * t.clusters && i < 4000 ==> tt::bound_in(#[trigger] t.mem[2 * i + 1]) != 0
                && tt::gen_in(t.mem[2 * i + 1]) == t.gen) ==> t.full() == 1000,
{
    let n = eval::min(1000, t.clusters as int) * 4;
    if t.clusters > 0 {
        if forall|i: int|
            0 <= i < 4 * t.clusters && i < 4000 ==> tt::bound_in(#[trigger] t.mem[2 * i + 1]) == 0
                || tt::gen_in(t.mem[2 * i + 1]) != t.gen {
            lemma_none_fresh(t, n as nat);
        }
        if forall|i: int|
            0 <= i < 4 * t.clusters && i < 4000 ==> tt::bound_in(#[trigger] t.mem[2 * i + 1]) != 0
                && tt::gen_in(t.mem[2 * i + 1]) == t.gen {
            lemma_all_fresh(t, n as nat);
            assert(n * 1000 / n == 1000) by (nonlinear_arith)
                requires
                    n > 0,
            ;
        }
        assert(0int / n == 0) by (nonlinear_arith)
            requires
                n > 0,
        ;
    }
}

proof fn lemma_none_fresh(t: Table, n: nat)
    requires
        forall|i: int|
            0 <= i < n ==> tt::bound_in(#[trigger] t.mem[2 * i + 1]) == 0 || tt::gen_in(
                t.mem[2 * i + 1],
            ) != t.gen,
    ensures
        t.fresh(n) == 0,
    decreases n,
{
    if n > 0 {
        lemma_none_fresh(t, (n - 1) as nat);
        assert(t.mem[2 * (n - 1) + 1] == t.mem[(n - 1) * 2 + 1]);
    }
}

proof fn lemma_all_fresh(t: Table, n: nat)
    requires
        forall|i: int|
            0 <= i < n ==> tt::bound_in(#[trigger] t.mem[2 * i + 1]) != 0 && tt::gen_in(
                t.mem[2 * i + 1],
            ) == t.gen,
    ensures
        t.fresh(n) == n,
    decreases n,
{
    if n > 0 {
        lemma_all_fresh(t, (n - 1) as nat);
        assert(t.mem[2 * (n - 1) + 1] == t.mem[(n - 1) * 2 + 1]);
    }
}

/// A table takes at most the megabytes it was given, and more than half of them,
/// and starts out empty.
pub proof fn law_tables_fit(t: Table, mb: int)
    requires
        uci::resized(t, mb),
        mb >= 1,
    ensures
        t.mem.len() * 8 <= mb * 1_048_576 < 2 * t.mem.len() * 8,
        forall|i: int| 0 <= i < t.mem.len() ==> #[trigger] t.mem[i] == 0,
{
}

/// A store touches one entry of one cluster and nothing else.
pub proof fn law_a_store_touches_one_entry(
    t: Table,
    key: u64,
    mv: Move,
    score: int,
    eval: int,
    depth: int,
    bound: int,
    ply: int,
    i: int,
)
    requires
        t.wf(),
        0 <= i < t.mem.len(),
        i / 2 != t.home(key) * 4 + t.slot(key),
    ensures
        t.stored(key, mv, score, eval, depth, bound, ply).mem[i] == t.mem[i],
        t.stored(key, mv, score, eval, depth, bound, ply).gen == t.gen,
{
    reveal(Table::stored);
    reveal_with_fuel(Table::cheapest, 5);
    if t.clusters != 0 {
        tt::lemma_home(t, key);
        let at = (t.home(key) * 4 + t.slot(key)) * 2;
        assert(0 <= at && at + 1 < t.mem.len());
        assert(i != at && i != at + 1);
    }
}

// ---------------------------------------------------------------------------
// Time
// ---------------------------------------------------------------------------

/// A time for the move is used whole, less the overhead; without any time there
/// is no limit.
pub proof fn law_a_time_for_the_move_is_used(l: Limits, stm: int, overhead: u64)
    requires
        0 <= stm < 2,
    ensures
        l.movetime > overhead ==> clock::soft_budget(l, stm, overhead) == l.movetime - overhead
            && clock::hard_budget(l, stm, overhead) == l.movetime - overhead,
        0 < l.movetime <= overhead ==> clock::soft_budget(l, stm, overhead) == 1
            && clock::hard_budget(l, stm, overhead) == 1,
        l.movetime == 0 && l.time@[stm] == 0 ==> clock::soft_budget(l, stm, overhead) == u64::MAX
            && clock::hard_budget(l, stm, overhead) == u64::MAX,
{
}

/// A clock that the arithmetic has room for.
pub open spec fn sane(l: Limits, stm: int) -> bool {
    l.time@[stm] <= 0x0fff_ffff_ffff_ffff && l.inc@[stm] <= 0x0fff_ffff_ffff_ffff
}

#[verifier::rlimit(30)]
proof fn lemma_budgets(l: Limits, stm: int, over: u64) -> (r: (int, int))
    requires
        0 <= stm < 2,
        sane(l, stm),
        l.movetime == 0,
        l.time@[stm] > 0,
    ensures
        r.0 == clock::avail(l, stm, over) / clock::moves_to_go(l),
        r.1 == l.inc@[stm] * 3 / 4,
        r.0 >= 0,
        r.1 >= 0,
        clock::soft_budget(l, stm, over) == clock::max(
            clock::min(r.0 + r.1, clock::avail(l, stm, over) / 2),
            1,
        ),
        clock::hard_budget(l, stm, over) == clock::max(
            clock::min(4 * (r.0 + r.1), clock::avail(l, stm, over) * 3 / 4),
            1,
        ),
{
    let y = clock::avail(l, stm, over);
    let n = clock::moves_to_go(l);
    assert(0 <= y / n <= y) by (nonlinear_arith)
        requires
            0 <= y,
            1 <= n,
    ;
    let (a, b) = (y / n, l.inc@[stm] * 3 / 4);
    lemma_whole(l.inc@[stm] * 3);
    lemma_whole(a + b);
    lemma_whole((a + b) * 4);
    lemma_whole(y * 3);
    assert(clock::optimum(l, stm, over) == a + b);
    (a, b)
}

proof fn lemma_whole(x: int)
    requires
        0 <= x <= u64::MAX,
    ensures
        clock::cut64(x) == x,
{
}

/// Only the clock of the side to move counts. With more time on it, a larger
/// increment or fewer moves to last for, a move may take at least as long; with
/// more overhead, no longer. It is never planned to take longer than it may.
pub proof fn law_more_time_is_more_time(a: Limits, b: Limits, stm: int, over: u64, more: u64)
    requires
        0 <= stm < 2,
        sane(a, stm),
        sane(b, stm),
        a.movetime == 0,
        b.movetime == 0,
        0 < a.time@[stm] <= b.time@[stm],
        a.inc@[stm] <= b.inc@[stm],
        a.movestogo == b.movestogo || 0 < b.movestogo < a.movestogo,
        over <= more,
    ensures
        clock::soft_budget(a, stm, more) <= clock::soft_budget(b, stm, over),
        clock::hard_budget(a, stm, more) <= clock::hard_budget(b, stm, over),
        clock::soft_budget(a, stm, over) <= clock::hard_budget(a, stm, over),
{
    let (x, y) = (clock::avail(a, stm, more), clock::avail(b, stm, over));
    let (m, n) = (clock::moves_to_go(a), clock::moves_to_go(b));
    assert(0 <= x <= y && 1 <= n <= m);
    assert(0 <= x / m <= y / n) by (nonlinear_arith)
        requires
            0 <= x <= y,
            1 <= n <= m,
    ;
    let r = lemma_budgets(a, stm, more);
    let s = lemma_budgets(b, stm, over);
    let t = lemma_budgets(a, stm, over);
}

/// A move gets its share: the time divided by the moves it has to last for, and
/// three quarters of the increment, as far as half the clock goes.
pub proof fn law_a_move_gets_its_share(l: Limits, stm: int, over: u64)
    requires
        0 <= stm < 2,
        sane(l, stm),
        l.movetime == 0,
        l.time@[stm] > over + 1,
    ensures
        ({
            let t = l.time@[stm] - over;
            let n = if l.movestogo == 0 {
                40
            } else if l.movestogo > 50 {
                50
            } else {
                l.movestogo as int
            };
            let share = t / n + l.inc@[stm] * 3 / 4;
            let plan = clock::soft_budget(l, stm, over);
            &&& share > t / 2 ==> plan == t / 2
            &&& 1 <= share <= t / 2 ==> plan == share
            &&& share < 1 ==> plan == 1
        }),
{
    let r = lemma_budgets(l, stm, over);
}

/// A best move that has been found again and again is worth less thought, a
/// falling score more.
pub proof fn law_settled_moves_take_less_time(soft: u64, s: int, t: int, fall: int, steeper: int)
    requires
        0 <= s <= t < 7,
        0 <= fall <= steeper <= 1500,
        soft <= 0x000f_ffff_ffff_ffff,
    ensures
        think::patience(soft, t, fall) <= think::patience(soft, s, fall),
        think::patience(soft, s, fall) <= think::patience(soft, s, steeper),
{
    let (x, y) = (think::STABILITY@[s] as int, think::STABILITY@[t] as int);
    assert(900 <= y <= x <= 1500);
    let k = soft as int;
    assert(k * y <= k * x <= k * 1500) by (nonlinear_arith)
        requires
            0 <= k,
            900 <= y <= x <= 1500,
    ;
    let (u, v) = (k * x / 1000, k * y / 1000);
    assert(0 <= k * y) by (nonlinear_arith)
        requires
            0 <= k,
            0 <= y,
    ;
    assert(v * fall <= u * fall <= u * steeper <= u * 1500) by (nonlinear_arith)
        requires
            0 <= v <= u,
            0 <= fall <= steeper <= 1500,
    ;
    assert(0 <= v * fall) by (nonlinear_arith)
        requires
            0 <= v,
            0 <= fall,
    ;
}

/// A search that goes on for ever is never late, one with a time for the move is
/// late when it is over, and one that was late stays so.
pub proof fn law_lateness(l: Limits, soft: u64, spent: u64, later: u64, s: int, fall: int)
    requires
        spent <= later,
    ensures
        think::late(l, soft, spent, s, fall) ==> think::late(l, soft, later, s, fall),
        l.infinite && l.movetime == 0 ==> !think::late(l, soft, spent, s, fall),
        l.movetime > 0 ==> (think::late(l, soft, spent, s, fall) <==> spent >= soft),
{
}

// ---------------------------------------------------------------------------
// Orders
// ---------------------------------------------------------------------------

proof fn lemma_bytes(s: &str)
    requires
        s.is_ascii(),
    ensures
        s.spec_bytes() == Seq::new(s@.len(), |i: int| s@.index(i) as u8),
{
    broadcast use is_ascii_spec_bytes;

    assert(s.spec_bytes() =~= Seq::new(s@.len(), |i: int| s@.index(i) as u8));
}

/// The words of a `go` command, told apart by their length and first letter.
proof fn lemma_words()
    ensures
        "depth".spec_bytes().len() == 5 && "depth".spec_bytes()[0] == 100,
        "nodes".spec_bytes().len() == 5 && "nodes".spec_bytes()[0] == 110,
        "movetime".spec_bytes().len() == 8 && "movetime".spec_bytes()[0] == 109,
        "wtime".spec_bytes().len() == 5 && "wtime".spec_bytes()[0] == 119,
        "btime".spec_bytes().len() == 5 && "btime".spec_bytes()[0] == 98,
        "winc".spec_bytes().len() == 4 && "winc".spec_bytes()[0] == 119,
        "binc".spec_bytes().len() == 4 && "binc".spec_bytes()[0] == 98,
        "movestogo".spec_bytes().len() == 9,
        "perft".spec_bytes().len() == 5 && "perft".spec_bytes()[0] == 112,
        "infinite".spec_bytes().len() == 8 && "infinite".spec_bytes()[0] == 105,
{
    reveal_strlit("depth");
    reveal_strlit("nodes");
    reveal_strlit("movetime");
    reveal_strlit("wtime");
    reveal_strlit("btime");
    reveal_strlit("winc");
    reveal_strlit("binc");
    reveal_strlit("movestogo");
    reveal_strlit("perft");
    reveal_strlit("infinite");
    lemma_bytes("depth");
    lemma_bytes("nodes");
    lemma_bytes("movetime");
    lemma_bytes("wtime");
    lemma_bytes("btime");
    lemma_bytes("winc");
    lemma_bytes("binc");
    lemma_bytes("movestogo");
    lemma_bytes("perft");
    lemma_bytes("infinite");
}

/// A word and a number, and what else was ordered.
pub open spec fn order(w: Seq<u8>, v: u64, rest: Seq<Seq<u8>>) -> Seq<Seq<u8>> {
    seq![w, io::digits(v as nat)] + rest
}

/// Each word of a `go` command sets what it names to the number after it, and
/// nothing else: the depth, the nodes, the time for the move, the clocks and
/// increments of the two sides, the moves to the next control.
pub proof fn law_orders_do_what_they_say(b: Bounds, perft: int, v: u64, rest: Seq<Seq<u8>>)
    requires
        b.time.len() == 2,
        b.inc.len() == 2,
    ensures
        v < 0x8000_0000 ==> orders::go_order(b, perft, order("depth".spec_bytes(), v, rest))
            == orders::go_order(Bounds { depth: v as int, ..b }, perft, rest),
        orders::go_order(b, perft, order("nodes".spec_bytes(), v, rest)) == orders::go_order(
            Bounds { nodes: v as int, ..b },
            perft,
            rest,
        ),
        orders::go_order(b, perft, order("movetime".spec_bytes(), v, rest)) == orders::go_order(
            Bounds { movetime: v as int, ..b },
            perft,
            rest,
        ),
        orders::go_order(b, perft, order("wtime".spec_bytes(), v, rest)) == orders::go_order(
            Bounds { time: seq![v, b.time[1]], ..b },
            perft,
            rest,
        ),
        orders::go_order(b, perft, order("btime".spec_bytes(), v, rest)) == orders::go_order(
            Bounds { time: seq![b.time[0], v], ..b },
            perft,
            rest,
        ),
        orders::go_order(b, perft, order("winc".spec_bytes(), v, rest)) == orders::go_order(
            Bounds { inc: seq![v, b.inc[1]], ..b },
            perft,
            rest,
        ),
        orders::go_order(b, perft, order("binc".spec_bytes(), v, rest)) == orders::go_order(
            Bounds { inc: seq![b.inc[0], v], ..b },
            perft,
            rest,
        ),
        orders::go_order(b, perft, order("movestogo".spec_bytes(), v, rest)) == orders::go_order(
            Bounds { movestogo: v as int, ..b },
            perft,
            rest,
        ),
        v < 0x8000_0000 ==> orders::go_order(b, perft, order("perft".spec_bytes(), v, rest))
            == orders::go_order(b, v as int, rest),
        orders::go_order(b, perft, seq!["infinite".spec_bytes()] + rest) == orders::go_order(
            Bounds { infinite: true, ..b },
            perft,
            rest,
        ),
{
    lemma_words();
    text::law_numbers_read_back(v);
    assert forall|w: Seq<u8>|
        ({
            let ws = #[trigger] order(w, v, rest);
            &&& ws.len() >= 2
            &&& ws[0] == w
            &&& ws[1] == io::digits(v as nat)
            &&& ws.skip(2) == rest
        }) by {
        assert(order(w, v, rest).skip(2) =~= rest);
    }
    assert((seq!["infinite".spec_bytes()] + rest).skip(1) =~= rest);
    assert(b.time.update(0, v) =~= seq![v, b.time[1]]);
    assert(b.time.update(1, v) =~= seq![b.time[0], v]);
    assert(b.inc.update(0, v) =~= seq![v, b.inc[1]]);
    assert(b.inc.update(1, v) =~= seq![b.inc[0], v]);
}

/// A `setoption` command names an option and gives it a value; words that are
/// neither are passed over.
pub proof fn law_options_are_named_and_valued(
    name: Seq<u8>,
    val: int,
    w: Seq<u8>,
    v: u64,
    rest: Seq<Seq<u8>>,
)
    ensures
        orders::option_order(name, val, seq!["name".spec_bytes(), w] + rest)
            == orders::option_order(w, val, rest),
        orders::option_order(name, val, seq!["value".spec_bytes(), io::digits(v as nat)] + rest)
            == orders::option_order(name, v as int, rest),
        w != "name".spec_bytes() && w != "value".spec_bytes() ==> orders::option_order(
            name,
            val,
            seq![w] + rest,
        ) == orders::option_order(name, val, rest),
        orders::option_order(name, val, Seq::empty()) == (name, val),
{
    reveal_strlit("name");
    reveal_strlit("value");
    lemma_bytes("name");
    lemma_bytes("value");
    assert("name".spec_bytes().len() == 4 && "value".spec_bytes().len() == 5);
    text::law_numbers_read_back(v);
    assert((seq!["name".spec_bytes(), w] + rest).skip(2) =~= rest);
    assert((seq!["value".spec_bytes(), io::digits(v as nat)] + rest).skip(2) =~= rest);
    assert((seq![w] + rest).skip(1) =~= rest);
}

// ---------------------------------------------------------------------------
// Words
// ---------------------------------------------------------------------------

/// A word: something, and nothing in it is a blank or the end of a text.
pub open spec fn is_word(w: Seq<u8>) -> bool {
    w.len() > 0 && forall|i: int| 0 <= i < w.len() ==> #[trigger] w[i] != 32 && w[i] != 13 && w[i]
        != 0
}

proof fn lemma_skip(a: Seq<u8>, b: Seq<u8>, i: int)
    requires
        0 <= i <= b.len(),
    ensures
        text::past_blanks(a + b, a.len() + i) == a.len() + text::past_blanks(b, i),
        text::word_end(a + b, a.len() + i) == a.len() + text::word_end(b, i),
    decreases b.len() - i,
{
    if i < b.len() {
        assert((a + b)[a.len() + i] == b[i]);
        lemma_skip(a, b, i + 1);
    }
}

proof fn lemma_words_after(a: Seq<u8>, b: Seq<u8>, i: int)
    requires
        0 <= i <= b.len(),
    ensures
        text::words(a + b, a.len() + i) == text::words(b, i),
    decreases b.len() - i,
{
    lemma_skip(a, b, i);
    text::lemma_bounds(b, i);
    let x = text::past_blanks(b, i);
    lemma_skip(a, b, x);
    text::lemma_bounds(b, x);
    if x < b.len() && b[x] != 0 {
        assert((a + b)[a.len() + x] == b[x]);
        let y = text::word_end(b, x);
        if x < y {
            lemma_words_after(a, b, y);
            assert((a + b).subrange(a.len() + x, a.len() + y) =~= b.subrange(x, y));
        }
    } else if x < b.len() {
        assert((a + b)[a.len() + x] == b[x]);
    }
}

proof fn lemma_word_end(w: Seq<u8>, t: Seq<u8>, i: int)
    requires
        is_word(w),
        0 <= i <= w.len(),
        t.len() > 0 ==> t[0] == 32 || t[0] == 13 || t[0] == 0,
    ensures
        text::word_end(w + t, i) == w.len(),
    decreases w.len() - i,
{
    if i < w.len() {
        assert((w + t)[i] == w[i]);
        lemma_word_end(w, t, i + 1);
    } else if t.len() > 0 {
        assert((w + t)[i] == t[0]);
    }
}

/// A text is split at its blanks: a word and a blank before a text add the word
/// to its words, a blank alone adds nothing, and a word alone is its only word.
pub proof fn law_texts_are_split_at_blanks(w: Seq<u8>, blank: u8, t: Seq<u8>)
    requires
        is_word(w),
        blank == 32 || blank == 13,
    ensures
        text::words(w + seq![blank] + t, 0) == seq![w] + text::words(t, 0),
        text::words(seq![blank] + t, 0) == text::words(t, 0),
        text::words(w, 0) == seq![w],
        text::words(Seq::empty(), 0) == Seq::<Seq<u8>>::empty(),
{
    let e = seq![blank] + t;
    let s = w + e;
    assert(w + seq![blank] + t =~= s);
    assert(s[0] == w[0]);
    lemma_word_end(w, e, 0);
    text::lemma_bounds(s, 0);
    assert(s.subrange(0, w.len() as int) =~= w);
    lemma_words_after(w, e, 0);
    lemma_words_after(seq![blank], t, 0);
    lemma_skip(seq![blank], t, 0);
    assert(e[0] == blank);
    assert(text::past_blanks(e, 0) == text::past_blanks(e, 1));
    assert(text::words(e, 0) == text::words(e, 1)) by {
        text::lemma_bounds(e, 1);
        text::lemma_bounds(e, text::past_blanks(e, 1));
    }
    let none = Seq::<u8>::empty();
    assert(w + none =~= w);
    lemma_word_end(w, none, 0);
    assert(w.subrange(0, w.len() as int) =~= w);
    assert(text::words(w, w.len() as int) =~= Seq::<Seq<u8>>::empty());
    assert(text::words(w, 0) =~= seq![w]);
    assert(text::words(none, 0) =~= Seq::<Seq<u8>>::empty());
}

// ---------------------------------------------------------------------------
// Network files
// ---------------------------------------------------------------------------

/// The numbers of a network file are little-endian and in two's complement: each
/// is in its range, and differs from its bytes, read without a sign, by a whole
/// number of turns.
pub proof fn law_network_numbers_are_twos_complement(s: Seq<u8>, i: int)
    requires
        0 <= i,
        i + 4 <= s.len(),
    ensures
        -128 <= infer::signed8(s[i]) <= 127,
        (infer::signed8(s[i]) - s[i]) % 256 == 0,
        -32_768 <= infer::signed16(s, i) <= 32_767,
        (infer::signed16(s, i) - (s[i] + 256 * s[i + 1])) % 65_536 == 0,
        -0x8000_0000 <= infer::signed32(s, i) < 0x8000_0000,
        (infer::signed32(s, i) - (s[i] + 0x100 * s[i + 1] + 0x1_0000 * s[i + 2] + 0x100_0000 * s[i
            + 3])) % 0x1_0000_0000 == 0,
{
}

} // verus!
