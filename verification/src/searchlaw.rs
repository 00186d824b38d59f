//! What holds of evaluating, ordering and searching as a whole.

use vstd::prelude::*;
use crate::bits;
use crate::clock;
use crate::datagen;
use crate::eval;
use crate::fenlaw;
use crate::geom;
use crate::host::Heard;
use crate::infer;
use crate::infer::Brain;
use crate::learn;
use crate::mind;
use crate::mind::{Searcher, World};
use crate::mirror;
use crate::movegen;
use crate::moves::Move;
use crate::net;
use crate::netlaw;
use crate::pos::Position;
use crate::see;
use crate::think;
use crate::tree;
use crate::tree::Frame;
use crate::twin;
use crate::uci;
use crate::uci::{Engine, Turn};

verus! {

broadcast use {crate::bits::group_mem, crate::geom::group_geom};

// ---------------------------------------------------------------------------
// The board
// ---------------------------------------------------------------------------

/// The squares between two squares lie on the line through them, and are
/// neither of the two. A line holds both of its ends.
pub proof fn law_between_lies_on_the_line(a: int, b: int, s: int)
    requires
        geom::is_sq(a),
        geom::is_sq(b),
    ensures
        bits::mem(geom::between_bb(a, b), s) ==> {
            &&& bits::mem(geom::line_bb(a, b), s)
            &&& s != a
            &&& s != b
        },
        geom::line_bb(a, b) != 0 ==> {
            &&& bits::mem(geom::line_bb(a, b), a)
            &&& bits::mem(geom::line_bb(a, b), b)
        },
{
    if geom::line_bb(a, b) != 0 {
        let x = bits::low(geom::line_bb(a, b));
        bits::lemma_low(geom::line_bb(a, b));
        assert(geom::on_line(a, b, x));
    }
}

// ---------------------------------------------------------------------------
// Evaluation
// ---------------------------------------------------------------------------

/// Dead material is worth exactly nothing, whatever the network has learned.
pub proof fn law_dead_material_is_a_draw(n: Brain, p: Position)
    requires
        p.bare(),
    ensures
        eval::score(n, p) == 0,
        p.worth() == 0,
{
}

/// The whole evaluation does not care which colour is which, with or without a
/// network. A cached answer has to be the position's own, since two positions
/// can share a key.
pub proof fn law_score_is_colour_symmetric(n: Brain, p: Position, q: Position)
    requires
        mirror::mirrors(p, q),
        net::facts(p).len() <= 96,
        n.loaded && n.knows(p.key) ==> n.recall(p.key) == n.answer(p),
        n.loaded && n.knows(q.key) ==> n.recall(q.key) == n.answer(q),
    ensures
        eval::score(n, p) == eval::score(n, q),
{
    mirror::lemma_flip_bare(p, q);
    mirror::law_evaluation_is_colour_symmetric(p, q);
    netlaw::law_network_is_colour_symmetric(n, p, q);
}

/// Asking the network twice gives the same answer: the cache changes nothing.
pub proof fn law_asking_twice_changes_nothing(n: Brain, p: Position)
    requires
        n.wf(),
    ensures
        n.told(p).reply(p) == n.reply(p),
        n.told(p).told(p) == n.told(p),
{
    infer::lemma_packed(p.key, n.gen, n.answer(p));
}

// ---------------------------------------------------------------------------
// Corrections
// ---------------------------------------------------------------------------

/// A correction is a nudge, never a replacement for the evaluation: it moves an
/// evaluation by 72 centipawns at most, and never into the range of mates.
pub proof fn law_correction_is_a_nudge(w: World, p: Position, ply: int, raw: int)
    ensures
        -72 <= w.correction(p, ply) <= 72,
        -31_872 < w.corrected(p, ply, raw) < 31_872,
        geom::abs(raw) < 31_872 ==> geom::abs(w.corrected(p, ply, raw) - raw) <= 72,
{
    reveal(World::corrected);
}

/// Where nothing was learned, nothing is corrected.
pub proof fn law_clearing_undoes_corrections(w: World, p: Position, ply: int, raw: int)
    requires
        w.wf(),
        w.blank(),
        p.stm < 2,
        0 <= ply <= 136,
        geom::abs(raw) < 31_872,
    ensures
        w.corrected(p, ply, raw) == raw,
{
    reveal(World::corrected);
    if ply >= 1 {
        assert(w.stack[ply - 1].piece_to <= 768);
    }
}

/// A correction entry never leaves its range, whatever it is taught.
pub proof fn law_corrections_are_bounded(e: int, diff: int, depth: int)
    ensures
        -12_288 <= learn::blended(e, diff, depth) <= 12_288,
{
}

// ---------------------------------------------------------------------------
// Ordering
// ---------------------------------------------------------------------------

/// Picking moves one by one hands their scores out in non-increasing order:
/// what is picked is at least every score that is left.
pub proof fn law_picks_are_sorted(sc: Seq<i32>, i: int, j: int)
    requires
        0 <= i < j < sc.len(),
    ensures
        ({
            let s = movegen::swapped(sc, i, movegen::best_upto(sc, i, sc.len() as int));
            s[i] >= s[j]
        }),
{
    movegen::lemma_best_upto(sc, i, sc.len() as int);
    lemma_best(sc, i, sc.len() as int, i);
    lemma_best(sc, i, sc.len() as int, j);
}

proof fn lemma_best(sc: Seq<i32>, i: int, n: int, j: int)
    requires
        i <= j < n,
    ensures
        sc[movegen::best_upto(sc, i, n)] >= sc[j],
    decreases n - i,
{
    if n > i + 1 {
        if j < n - 1 {
            lemma_best(sc, i, n - 1, j);
        } else {
            lemma_best(sc, i, n - 1, i);
        }
    }
}

/// A quiet move: neither a capture nor a queen promotion, and not the table's.
pub open spec fn plain(m: Move, tt_move: Move) -> bool {
    m != tt_move && !mind::is_noisy(m) && !(m.pro() && m.promo_spec() == 4)
}

/// A capture that is ranked by its exchange.
pub open spec fn swap(m: Move, tt_move: Move) -> bool {
    m != tt_move && mind::is_noisy(m) && !(m.pro() && m.promo_spec() == 4)
}

/// The bands of the ordering: the table move comes first, then queen
/// promotions, winning captures, quiet moves and losing captures.
pub proof fn law_ordering_has_bands(
    w: World,
    p: Position,
    tt_move: Move,
    ply: int,
    thresh: int,
    good: Move,
    quiet: Move,
    bad: Move,
)
    requires
        w.wf(),
        p.board_ok(),
        p.stm < 2,
        0 <= ply < 128,
        swap(good, tt_move) && see::see(p, good) >= thresh,
        plain(quiet, tt_move),
        swap(bad, tt_move) && see::see(p, bad) < thresh,
    ensures
        w.rank(p, tt_move, tt_move, ply, thresh) > 8_388_708 > w.rank(p, good, tt_move, ply, thresh),
        w.rank(p, good, tt_move, ply, thresh) > w.rank(p, quiet, tt_move, ply, thresh),
        w.rank(p, quiet, tt_move, ply, thresh) > w.rank(p, bad, tt_move, ply, thresh),
{
    learn::lemma_indices(p, good, w.prev(ply, 1), w.prev(ply, 2));
    learn::lemma_indices(p, bad, w.prev(ply, 1), w.prev(ply, 2));
    learn::lemma_indices(p, quiet, w.prev(ply, 1), w.prev(ply, 2));
    lemma_values(see::taken(p, good));
    lemma_values(see::taken(p, bad));
}

/// The bands of the quiet moves: the two killers, the newest first, then the
/// answer to the last move, then the others. All are ranked below the winning
/// captures.
pub proof fn law_quiets_have_bands(
    w: World,
    p: Position,
    tt_move: Move,
    ply: int,
    thresh: int,
    m: Move,
    rest: Move,
)
    requires
        w.wf(),
        p.board_ok(),
        p.stm < 2,
        0 <= ply < 128,
        plain(m, tt_move),
        plain(rest, tt_move),
        rest != w.killers[ply * 2],
        rest != w.killers[ply * 2 + 1],
        !answers(w, ply, rest),
    ensures
        m == w.killers[ply * 2] ==> w.rank(p, m, tt_move, ply, thresh) == 2_097_154,
        m != w.killers[ply * 2] && m == w.killers[ply * 2 + 1] ==> w.rank(
            p,
            m,
            tt_move,
            ply,
            thresh,
        ) == 2_097_153,
        m != w.killers[ply * 2] && m != w.killers[ply * 2 + 1] && answers(w, ply, m) ==> w.rank(
            p,
            m,
            tt_move,
            ply,
            thresh,
        ) == 1_048_576,
        w.rank(p, rest, tt_move, ply, thresh) < 1_048_576,
{
    learn::lemma_indices(p, rest, w.prev(ply, 1), w.prev(ply, 2));
}

/// `m` is the remembered answer to the move before `ply`.
pub open spec fn answers(w: World, ply: int, m: Move) -> bool {
    m == if w.prev(ply, 1) != 0 {
        w.counter[w.prev(ply, 1) - 1]
    } else {
        Move(0)
    }
}

pub proof fn lemma_values(i: int)
    requires
        0 <= i <= 6,
    ensures
        0 <= eval::SEE_VAL@[i] <= 20_000,
{
}

/// The sign of a capture's rank stands in for the exchange test: once
/// quiescence meets a negative rank, everything left over loses material.
pub proof fn law_sign_tells_the_exchange(w: World, p: Position, tt_move: Move, ply: int, m: Move)
    requires
        w.wf(),
        p.board_ok(),
        p.stm < 2,
        0 <= ply < 128,
        swap(m, tt_move),
    ensures
        (w.rank(p, m, tt_move, ply, 0) < 0) == (see::see(p, m) < 0),
{
    learn::lemma_indices(p, m, 0, 0);
    lemma_values(see::taken(p, m));
}

// ---------------------------------------------------------------------------
// Pruning and reducing
// ---------------------------------------------------------------------------

/// A null move never proves a mate.
pub proof fn law_null_move_proves_no_mate(w: World, p: Position, f: Frame)
    requires
        f.beta < 31_872,
    ensures
        tree::pass(w, p, f).1 matches Some(v) ==> v < 31_872,
{
}

/// A reduced search still looks at least one ply deep, as long as the full one
/// does.
pub proof fn law_reduction_leaves_a_ply(
    w: World,
    p: Position,
    f: Frame,
    played: int,
    m: Move,
    d: int,
)
    requires
        d >= 1,
    ensures
        1 <= d - tree::reduction(w, p, f, played, m, d) / 1024 <= d,
{
}

/// A draw is worth nothing anywhere in the tree, and so is dead material.
pub proof fn law_draws_are_worth_nothing(
    w: World,
    p: Position,
    depth: int,
    alpha: int,
    beta: int,
    ply: int,
    cut: bool,
    pv: bool,
    ex: Move,
)
    requires
        p.drawn(ply) || p.bare(),
        ply > 0,
    ensures
        tree::nega(w, p, depth, alpha, beta, ply, cut, pv, ex).1 == 0,
{
}

/// A position without moves is worth a mate in nothing when in check, and
/// nothing at all otherwise.
pub proof fn law_no_move_ends_the_game(w: World, p: Position, f: Frame)
    requires
        tree::menu(p, movegen::GenKind::All).len() == 0,
    ensures
        tree::tour(w, p, f).1 == if f.in_check {
            f.ply - 32_000
        } else {
            0
        },
{
}

// ---------------------------------------------------------------------------
// Time
// ---------------------------------------------------------------------------

/// No limit stays no limit, however it is scaled.
pub proof fn law_no_limit_survives_scaling(per_mille: u64)
    ensures
        mind::scaled_ms(u64::MAX, per_mille) == u64::MAX,
{
}

/// A falling score buys up to half as much time again, and nothing else.
pub proof fn law_falling_buys_time(depth: int, before: int, score: int)
    ensures
        1000 <= think::fall(depth, before, score) <= 1500,
        score >= before ==> think::fall(depth, before, score) == 1000,
{
}

/// A search without a time limit is never late.
pub proof fn law_unlimited_is_never_late(l: mind::Limits, spent: u64, stability: int, fall: int)
    requires
        l.movetime == 0,
        0 <= stability < 7,
    ensures
        !think::late(l, u64::MAX, spent, stability, fall),
{
}

/// Without a time limit, when a search rests does not depend on the clock.
proof fn lemma_rests_without_clock(o: Searcher, p: Position, k: nat, a: u64, b: u64)
    requires
        o.limits.movetime == 0,
        o.limits.time@[p.stm as int] == 0,
    ensures
        o.rests(p, k, a) == o.rests(p, k, b),
{
    reveal(Searcher::rests);
}

/// One search does not outlast another.
proof fn lemma_no_longer(
    o: Searcher,
    a: Searcher,
    b: Searcher,
    p: Position,
    i: nat,
    j: nat,
    s: Seq<u64>,
    t: Seq<u64>,
)
    requires
        o.limits.movetime == 0,
        o.limits.time@[p.stm as int] == 0,
        a.concluded(o, p, i, s),
        b.concluded(o, p, j, t),
        !a.stop,
    ensures
        j <= i,
{
    if i < j {
        lemma_rests_without_clock(o, p, i, s[i - 1], t[i - 1]);
        reveal(Searcher::awake);
        let u = if b.stop {
            t
        } else {
            t.drop_last()
        };
        assert(u[i - 1] == t[i - 1]);
        assert(!o.rests(p, (i - 1 + 1) as nat, u[i - 1]));
    }
}

/// A search without a time limit that nothing stops is a function of what was
/// known when it began: the same best move, the same score, the same knowledge.
pub proof fn law_search_is_deterministic(
    o: Searcher,
    a: Searcher,
    b: Searcher,
    p: Position,
    x: Seq<u8>,
    x1: Seq<u8>,
    y: Seq<u8>,
    y1: Seq<u8>,
    g: Seq<Heard>,
    g1: Seq<Heard>,
    h: Seq<Heard>,
    h1: Seq<Heard>,
)
    requires
        o.limits.movetime == 0,
        o.limits.time@[p.stm as int] == 0,
        think::searched(o, a, p, x, x1, g, g1),
        think::searched(o, b, p, y, y1, h, h1),
        !a.stop,
        !b.stop,
    ensures
        a.best == b.best,
        a.best_score == b.best_score,
        a@ == b@,
{
    if movegen::move_list(p, movegen::GenKind::All).len() > 0 {
        let (i, s) = choose|k: nat, times: Seq<u64>| #[trigger] a.concluded(o, p, k, times);
        let (j, t) = choose|k: nat, times: Seq<u64>| #[trigger] b.concluded(o, p, k, times);
        lemma_no_longer(o, a, b, p, i, j, s, t);
        lemma_no_longer(o, b, a, p, j, i, t, s);
    }
}

/// A search that its node budget stopped does not go on where another ends.
proof fn lemma_same_end(
    o: Searcher,
    a: Searcher,
    b: Searcher,
    p: Position,
    i: nat,
    j: nat,
    s: Seq<u64>,
    t: Seq<u64>,
)
    requires
        o.limits.movetime == 0,
        o.limits.time@[p.stm as int] == 0,
        a.starved(o),
        a.concluded(o, p, i, s),
        b.concluded(o, p, j, t),
    ensures
        j <= i,
        i == j && a.stop ==> b.stop,
{
    if !a.stop {
        lemma_no_longer(o, a, b, p, i, j, s, t);
    } else {
        if i < j {
            let best = movegen::move_list(p, movegen::GenKind::All)[0];
            assert(o@.started().threads == o.threads) by {
                reveal(World::started);
            }
            think::lemma_deepened(o@.started(), p, best, o.first_depth(), i + 1, j);
        }
        if i == j && !b.stop {
            lemma_rests_without_clock(o, p, i, s[i - 1], t[i - 1]);
            reveal(Searcher::awake);
            assert(!o.rests(p, (i - 1 + 1) as nat, s[i - 1]));
        }
    }
}

/// The same holds where the node budget may stop it, and nothing else can: the
/// budget lands on the node, so equal searches end at the same place.
pub proof fn law_budgeted_search_is_deterministic(
    o: Searcher,
    a: Searcher,
    b: Searcher,
    p: Position,
    x: Seq<u8>,
    x1: Seq<u8>,
    y: Seq<u8>,
    y1: Seq<u8>,
    g: Seq<Heard>,
    g1: Seq<Heard>,
    h: Seq<Heard>,
    h1: Seq<Heard>,
)
    requires
        o.limits.movetime == 0,
        o.limits.time@[p.stm as int] == 0,
        movegen::move_list(p, movegen::GenKind::All).len() > 0,
        think::searched(o, a, p, x, x1, g, g1),
        think::searched(o, b, p, y, y1, h, h1),
        a.starved(o),
        b.starved(o),
    ensures
        a.stop == b.stop,
        a.best == b.best,
        a.best_score == b.best_score,
        !a.stop ==> a@ == b@,
{
    let (i, s) = choose|k: nat, times: Seq<u64>| #[trigger] a.concluded(o, p, k, times);
    let (j, t) = choose|k: nat, times: Seq<u64>| #[trigger] b.concluded(o, p, k, times);
    lemma_same_end(o, a, b, p, i, j, s, t);
    lemma_same_end(o, b, a, p, j, i, t, s);
}

/// Iterations of twins agree.
proof fn lemma_twin_aspire(
    a: World,
    b: World,
    r: bool,
    p: Position,
    depth: int,
    cur: int,
    alpha: int,
    beta: int,
    delta: int,
)
    requires
        twin::twin(a, b, 0, r),
        depth >= 1,
        cur >= 1,
    ensures
        ({
            let x = think::aspire(a, p, depth, cur, alpha, beta, delta);
            let y = think::aspire(b, p, depth, cur, alpha, beta, delta);
            x.1 == y.1 && twin::twin(x.0, y.0, 0, true)
        }),
    decreases alpha + 32_500, 32_500 - beta,
{
    twin::lemma_nega(a, b, r, p, cur, alpha, beta, 0, false, true, Move(0));
    let (a1, v) = tree::nega(a, p, cur, alpha, beta, 0, false, true, Move(0));
    let b1 = tree::nega(b, p, cur, alpha, beta, 0, false, true, Move(0)).0;
    if v <= alpha && alpha > -32_500 && delta > 0 {
        lemma_twin_aspire(
            a1,
            b1,
            true,
            p,
            depth,
            depth,
            clock::max(v - delta, -32_500),
            eval::quot(alpha + beta, 2),
            think::grown(delta),
        );
    } else if v > alpha && v >= beta && beta < 32_500 && delta > 0 {
        lemma_twin_aspire(
            a1,
            b1,
            true,
            p,
            depth,
            if cur > 1 && geom::abs(v) < 31_872 {
                cur - 1
            } else {
                cur
            },
            alpha,
            clock::min(v + delta, 32_500),
            think::grown(delta),
        );
    }
}

/// Deepening of twins agrees.
proof fn lemma_twin_deepened(a: World, b: World, p: Position, best: Move, first: int, k: nat)
    requires
        twin::twin(a, b, 0, false),
        first >= 1,
    ensures
        ({
            let x = think::deepened(a, p, best, first, k);
            let y = think::deepened(b, p, best, first, k);
            x.score == y.score && x.best == y.best && x.w.nodes == y.w.nodes && twin::twin(
                x.w,
                y.w,
                0,
                k > 0,
            )
        }),
    decreases k,
{
    if k == 0 {
        twin::lemma_agree(a, b, 0, false);
    } else {
        let j = (k - 1) as nat;
        lemma_twin_deepened(a, b, p, best, first, j);
        let x = think::deepened(a, p, best, first, j);
        let y = think::deepened(b, p, best, first, j);
        let (lo, hi) = think::window(first + j, x.score);
        lemma_twin_aspire(
            x.w,
            y.w,
            j > 0,
            p,
            first + j,
            first + j,
            lo,
            hi,
            think::opening(x.score),
        );
        let (u, v) = (
            think::tree_score(x.w, p, first + j, x.score).0,
            think::tree_score(y.w, p, first + j, x.score).0,
        );
        twin::lemma_agree(u, v, 0, true);
        reveal(twin::twin);
    }
}

proof fn lemma_twin_settled(a: World, b: World, p: Position, best: Move, first: int, k: nat)
    requires
        twin::twin(a, b, 0, false),
        first >= 1,
    ensures
        think::settled(a, p, best, first, k) == think::settled(b, p, best, first, k),
    decreases k,
{
    if k > 0 {
        lemma_twin_deepened(a, b, p, best, first, k);
        lemma_twin_deepened(a, b, p, best, first, (k - 1) as nat);
        lemma_twin_settled(a, b, p, best, first, (k - 1) as nat);
    }
}

/// Two searchers that have been cleared: whatever they did before, nothing of
/// it is left that a search could depend on.
pub open spec fn both_cleared(a: Searcher, b: Searcher) -> bool {
    &&& a@.wf() && b@.wf()
    &&& a@.blank() && b@.blank()
    &&& a.id == 0 && b.id == 0
    &&& a.threads == b.threads
    &&& a.start_depth == b.start_depth
    &&& a.limits == b.limits
    &&& a.lmr@ == b.lmr@
    &&& uci::all_zero(a@.table.mem) && uci::all_zero(b@.table.mem)
    &&& a@.table.clusters == b@.table.clusters
    &&& a@.table.gen == b@.table.gen
    &&& b.net@.same_weights(a.net@)
    &&& a.net@.forgetful() && b.net@.forgetful()
}

proof fn lemma_cleared_twins(a: Searcher, b: Searcher)
    requires
        both_cleared(a, b),
    ensures
        twin::twin(a@.started(), b@.started(), 0, false),
{
    reveal(World::started);
    let (x, y) = (a@.started(), b@.started());
    assert(x.table.mem =~= y.table.mem);
    assert(twin::alike(x.brain, y.brain)) by {
        reveal(twin::alike);
    }
    reveal(twin::twin);
}

proof fn lemma_twin_rests(a: Searcher, b: Searcher, p: Position, k: nat, x: u64, y: u64)
    requires
        both_cleared(a, b),
        a.first_depth() >= 1,
        a.limits.movetime == 0,
        a.limits.time@[p.stm as int] == 0,
        k > 0,
    ensures
        a.rests(p, k, x) == b.rests(p, k, y),
{
    reveal(Searcher::rests);
    lemma_cleared_twins(a, b);
    let best = movegen::move_list(p, movegen::GenKind::All)[0];
    let first = a.first_depth();
    lemma_twin_deepened(a@.started(), b@.started(), p, best, first, k);
    lemma_twin_deepened(a@.started(), b@.started(), p, best, first, (k - 1) as nat);
    lemma_twin_settled(a@.started(), b@.started(), p, best, first, k);
}

/// One cleared search ends no later than another.
proof fn lemma_cleared_end(
    o: Searcher,
    u: Searcher,
    a: Searcher,
    b: Searcher,
    p: Position,
    i: nat,
    j: nat,
    s: Seq<u64>,
    t: Seq<u64>,
)
    requires
        both_cleared(o, u),
        o.first_depth() >= 1,
        o.limits.movetime == 0,
        o.limits.time@[p.stm as int] == 0,
        a.starved(o),
        a.concluded(o, p, i, s),
        b.concluded(u, p, j, t),
    ensures
        j <= i,
        i == j && a.stop ==> b.stop,
{
    lemma_cleared_twins(o, u);
    let best = movegen::move_list(p, movegen::GenKind::All)[0];
    let first = o.first_depth();
    let (x, y) = (o@.started(), u@.started());
    assert(x.threads == o.threads && y.threads == u.threads) by {
        reveal(World::started);
    }
    if !a.stop && i < j {
        reveal(Searcher::awake);
        lemma_twin_rests(o, u, p, i, s[i - 1], t[i - 1]);
        let v = if b.stop {
            t
        } else {
            t.drop_last()
        };
        assert(v[i - 1] == t[i - 1]);
        assert(!u.rests(p, (i - 1 + 1) as nat, v[i - 1]));
    }
    if a.stop && i < j {
        lemma_twin_deepened(x, y, p, best, first, i + 1);
        think::lemma_deepened(y, p, best, first, i + 1, j);
    }
    if a.stop && i == j && !b.stop {
        reveal(Searcher::awake);
        lemma_twin_rests(o, u, p, i, s[i - 1], t[i - 1]);
        assert(!o.rests(p, (i - 1 + 1) as nat, s[i - 1]));
    }
}

/// Two searchers that were cleared, with the same limits, reductions and
/// network, give the same best move, score and node count, whatever either of
/// them searched before. Nothing but a node budget may stop them.
pub proof fn law_cleared_search_is_deterministic(
    o: Searcher,
    u: Searcher,
    a: Searcher,
    b: Searcher,
    p: Position,
    x: Seq<u8>,
    x1: Seq<u8>,
    y: Seq<u8>,
    y1: Seq<u8>,
    g: Seq<Heard>,
    g1: Seq<Heard>,
    h: Seq<Heard>,
    h1: Seq<Heard>,
)
    requires
        both_cleared(o, u),
        o.start_depth <= 0 || o.limits.depth >= 1,
        o.limits.movetime == 0,
        o.limits.time@[p.stm as int] == 0,
        think::searched(o, a, p, x, x1, g, g1),
        think::searched(u, b, p, y, y1, h, h1),
        a.same_orders(o),
        b.same_orders(u),
        o.threads <= 1,
        o.silent || o.ignore_stdin,
        u.silent || u.ignore_stdin,
    ensures
        a.best == b.best,
        a.best_score == b.best_score,
        a.nodes == b.nodes,
{
    assert(o@.started().nodes == 0 && u@.started().nodes == 0) by {
        reveal(World::started);
    }
    if movegen::move_list(p, movegen::GenKind::All).len() > 0 {
        let (i, s) = choose|k: nat, times: Seq<u64>| #[trigger] a.concluded(o, p, k, times);
        let (j, t) = choose|k: nat, times: Seq<u64>| #[trigger] b.concluded(u, p, k, times);
        lemma_cleared_results(o, u, a, b, p, i, j, s, t);
    }
}

/// What two cleared searches come to.
proof fn lemma_cleared_results(
    o: Searcher,
    u: Searcher,
    a: Searcher,
    b: Searcher,
    p: Position,
    i: nat,
    j: nat,
    s: Seq<u64>,
    t: Seq<u64>,
)
    requires
        both_cleared(o, u),
        o.start_depth <= 0 || o.limits.depth >= 1,
        o.limits.movetime == 0,
        o.limits.time@[p.stm as int] == 0,
        a.same_orders(o),
        b.same_orders(u),
        a.starved(o),
        b.starved(u),
        a.lasting(o),
        b.lasting(u),
        a.concluded(o, p, i, s),
        b.concluded(u, p, j, t),
    ensures
        a.best == b.best,
        a.best_score == b.best_score,
        a.nodes == b.nodes,
{
    assert(both_cleared(u, o)) by {
        lemma_both_cleared(o, u);
    }
    assert(i == j && a.stop == b.stop) by {
        lemma_cleared_end(o, u, a, b, p, i, j, s, t);
        lemma_cleared_end(u, o, b, a, p, j, i, t, s);
    }
    lemma_cleared_twins(o, u);
    let best = movegen::move_list(p, movegen::GenKind::All)[0];
    lemma_twin_deepened(o@.started(), u@.started(), p, best, o.first_depth(), i);
}

proof fn lemma_both_cleared(a: Searcher, b: Searcher)
    requires
        both_cleared(a, b),
    ensures
        both_cleared(b, a),
{
}

/// What the benchmark needs of the engines it runs on.
#[verifier::opaque]
pub open spec fn comparable(a: Searcher, b: Searcher) -> bool {
    &&& a.id == 0 && b.id == 0
    &&& a.threads == b.threads
    &&& a.threads <= 1
    &&& a.start_depth == 0 && b.start_depth == 0
    &&& a.lmr@ == b.lmr@
    &&& b.net@.same_weights(a.net@)
    &&& a@.table.clusters == b@.table.clusters
    &&& a@.table.clusters > 0
}

/// Comparable searchers are the same from a cold start.
proof fn lemma_chilled(a: Searcher, b: Searcher, o: Searcher, u: Searcher, depth: int)
    requires
        comparable(a, b),
        uci::chilled(a, o, depth),
        uci::chilled(b, u, depth),
        o.wf(),
        u.wf(),
    ensures
        both_cleared(o, u),
        o.threads <= 1,
        o.start_depth == 0,
        o.limits.movetime == 0,
        o.limits.time@[0] == 0,
        o.limits.time@[1] == 0,
        o.ignore_stdin,
        u.ignore_stdin,
{
    reveal(comparable);
    reveal(uci::chilled);
    let (l, m) = (o.limits, u.limits);
    assert(l@ == m@);
    assert(l.time =~= m.time && l.inc =~= m.inc);
}

/// Searches leave comparable searchers comparable.
proof fn lemma_still_comparable(o: Searcher, u: Searcher, a: Searcher, b: Searcher)
    requires
        both_cleared(o, u),
        o.threads <= 1,
        o.start_depth == 0,
        o@.table.clusters > 0,
        a.same_orders(o),
        b.same_orders(u),
        a.lasting(o),
        b.lasting(u),
    ensures
        comparable(a, b),
{
    reveal(comparable);
    assert(o@.started().table.clusters == o@.table.clusters && u@.started().table.clusters
        == u@.table.clusters) by {
        reveal(World::started);
    }
    crate::tt::law_stores_neither_resize_nor_age(o@.started().table, a@.table);
    crate::tt::law_stores_neither_resize_nor_age(u@.started().table, b@.table);
}

/// One search of the benchmark is the same on both engines, and leaves them fit
/// for the next.
proof fn lemma_same_turn(t: Turn, u: Turn, a: Searcher, b: Searcher, i: int, depth: int)
    requires
        comparable(a, b),
        uci::is_turn(t, a, i, depth),
        uci::is_turn(u, b, i, depth),
    ensures
        t.n.nodes == u.n.nodes,
        t.n.best == u.n.best,
        t.n.best_score == u.n.best_score,
        comparable(t.n, u.n),
{
    reveal(uci::is_turn);
    fenlaw::law_a_text_is_one_position(uci::bench_fen(i), t.p, u.p);
    lemma_chilled(a, b, t.o, u.o, depth);
    assert(t.o@.table.clusters > 0) by {
        reveal(uci::chilled);
        reveal(comparable);
    }
    assert(t.p.stm == 0 || t.p.stm == 1);
    lemma_still_comparable(t.o, u.o, t.n, u.n);
    law_cleared_search_is_deterministic(
        t.o,
        u.o,
        t.n,
        u.n,
        t.p,
        t.before,
        t.after,
        u.before,
        u.after,
        t.x,
        t.y,
        u.x,
        u.y,
    );
}

/// The searcher before a search is the one after the last, but for what it
/// listens to.
proof fn lemma_before(l: Seq<Turn>, k: Seq<Turn>, a: Searcher, b: Searcher, n: nat)
    requires
        n > 0,
        n <= l.len(),
        n <= k.len(),
        comparable(l[n - 1].n, k[n - 1].n),
    ensures
        comparable(uci::before_turn(l, a, n as int), uci::before_turn(k, b, n as int)),
{
    reveal(comparable);
}

/// `l` are searches of the benchmark that `s` began.
#[verifier::opaque]
spec fn run_of(l: Seq<Turn>, s: Searcher, depth: int) -> bool {
    forall|i: int|
        0 <= i < l.len() ==> uci::is_turn(#[trigger] l[i], uci::before_turn(l, s, i), i, depth)
}

proof fn lemma_run(l: Seq<Turn>, s: Searcher, depth: int, i: int)
    requires
        run_of(l, s, depth),
        0 <= i < l.len(),
    ensures
        uci::is_turn(l[i], uci::before_turn(l, s, i), i, depth),
{
    reveal(run_of);
}

/// The first searches of two benchmarks agree.
proof fn lemma_same_turns(
    l: Seq<Turn>,
    k: Seq<Turn>,
    a: Searcher,
    b: Searcher,
    depth: int,
    n: nat,
)
    requires
        comparable(a, b),
        n <= l.len(),
        n <= k.len(),
        run_of(l, a, depth),
        run_of(k, b, depth),
    ensures
        comparable(uci::before_turn(l, a, n as int), uci::before_turn(k, b, n as int)),
        forall|i: int|
            0 <= i < n ==> {
                &&& (#[trigger] l[i]).n.nodes == k[i].n.nodes
                &&& l[i].n.best == k[i].n.best
                &&& l[i].n.best_score == k[i].n.best_score
            },
        uci::turn_nodes(l, n) == uci::turn_nodes(k, n),
    decreases n,
{
    if n > 0 {
        let i = n - 1;
        lemma_same_turns(l, k, a, b, depth, i as nat);
        lemma_run(l, a, depth, i);
        lemma_run(k, b, depth, i);
        lemma_same_turn(l[i], k[i], uci::before_turn(l, a, i), uci::before_turn(k, b, i), i, depth);
        lemma_before(l, k, a, b, n);
    }
}

/// What was written ends in the summary of a benchmark.
pub open spec fn reports(out: Seq<u8>, total: int, ms: u64) -> bool {
    let text = uci::bench_text(total, ms);
    text.len() <= out.len() && out.skip(out.len() - text.len()) == text
}

/// The benchmark repeats itself: whatever two engines did before, as long as
/// they have the same network, the same reductions and tables of the same size,
/// each of its searches finds the same move and score in the same number of
/// nodes, and the totals they report are the same.
pub proof fn law_the_benchmark_repeats(
    a: Engine,
    b: Engine,
    a1: Engine,
    b1: Engine,
    depth: int,
    g: Seq<Heard>,
    g1: Seq<Heard>,
    h: Seq<Heard>,
    h1: Seq<Heard>,
)
    requires
        a.wf(),
        b.wf(),
        comparable(a.s, b.s),
        a1.benched(a, depth, g, g1),
        b1.benched(b, depth, h, h1),
    ensures
        a1.s.nodes == b1.s.nodes,
        a1.s.best == b1.s.best,
        a1.s.best_score == b1.s.best_score,
        exists|total: int, s: u64, t: u64| #[trigger]
            reports(a1.out@, total, s) && #[trigger] reports(b1.out@, total, t),
{
    let (l, x, z, s0, s1) = choose|
        l: Seq<Turn>,
        mid: Seq<u8>,
        z: Seq<Heard>,
        t0: u64,
        t1: u64,
    |
        {
            &&& #[trigger] uci::in_turn(l, a.s, depth, a.out@, mid, g.push(Heard::Time(t0)), z)
            &&& g1 == #[trigger] z.push(Heard::Time(t1))
            &&& l.len() == 12
            &&& a1.s == uci::before_turn(l, a.s, 12)
            &&& a1.out@ == mid + uci::bench_text(
                clock::cut64(uci::turn_nodes(l, 12)),
                clock::less(t1 as int, t0 as int) as u64,
            )
        };
    let (k, y, w, t0, t1) = choose|
        l: Seq<Turn>,
        mid: Seq<u8>,
        z: Seq<Heard>,
        t0: u64,
        t1: u64,
    |
        {
            &&& #[trigger] uci::in_turn(l, b.s, depth, b.out@, mid, h.push(Heard::Time(t0)), z)
            &&& h1 == #[trigger] z.push(Heard::Time(t1))
            &&& l.len() == 12
            &&& b1.s == uci::before_turn(l, b.s, 12)
            &&& b1.out@ == mid + uci::bench_text(
                clock::cut64(uci::turn_nodes(l, 12)),
                clock::less(t1 as int, t0 as int) as u64,
            )
        };
    reveal(run_of);
    lemma_same_turns(l, k, a.s, b.s, depth, 12);
    let total = clock::cut64(uci::turn_nodes(l, 12));
    assert(l[11].n.nodes == k[11].n.nodes);
    let (s, t) = (
        clock::less(s1 as int, s0 as int) as u64,
        clock::less(t1 as int, t0 as int) as u64,
    );
    let (u, v) = (uci::bench_text(total, s), uci::bench_text(total, t));
    assert((x + u).skip(x.len() as int) =~= u);
    assert((y + v).skip(y.len() as int) =~= v);
    assert(reports(a1.out@, total, s) && reports(b1.out@, total, t));
}

/// With no time limit and nobody to listen to, only the node budget stops a
/// search of the main thread.
pub proof fn law_only_the_budget_stops(o: Searcher, n: Searcher, p: Position, k: nat, times: Seq<u64>)
    requires
        o.id == 0,
        o.limits.movetime == 0,
        o.limits.time@[p.stm as int] == 0,
        o.silent || o.ignore_stdin,
        n.same_orders(o),
        n.concluded(o, p, k, times),
        n.stop,
    ensures
        n.over(),
{
}

// ---------------------------------------------------------------------------
// Training data
// ---------------------------------------------------------------------------

/// Every game ends with one of three results.
pub proof fn law_a_game_has_a_result(l: Seq<datagen::Ply>, start: Position, result: int)
    requires
        datagen::ends(l, start, result),
    ensures
        result == 0 || result == 1 || result == 2,
{
    reveal(datagen::ends);
}

/// A game never records more positions than it had plies.
pub proof fn law_records_are_plies(l: Seq<datagen::Ply>, seen: Seq<u64>, n: nat)
    requires
        n <= l.len(),
    ensures
        datagen::harvest(l, seen, n).1.len() <= n,
    decreases n,
{
    if n > 0 {
        law_records_are_plies(l, seen, (n - 1) as nat);
    }
}

} // verus!
