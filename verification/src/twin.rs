//! What a search depends on.
//!
//! Two worlds are twins if they differ only in what a search never reads before
//! it has written it: evaluations of plies not visited yet, lines of an earlier
//! search, counts of other threads, and where the network's answers are cached.
//! Searches of twins agree, and leave twins behind.

use vstd::prelude::*;
use crate::clock;
use crate::eval;
use crate::infer;
use crate::infer::Brain;
use crate::learn;
use crate::make;
use crate::mind;
use crate::mind::World;
use crate::movegen;
use crate::movegen::GenKind;
use crate::moves::Move;
use crate::pos::Position;
use crate::tree;
use crate::tree::{Calm, Frame, Reach, Run, Sift};
use crate::tt::Hit;

verus! {

// ---------------------------------------------------------------------------
// Networks
// ---------------------------------------------------------------------------

/// The same network, with the same answers at hand.
#[verifier::opaque]
pub open spec fn alike(a: Brain, b: Brain) -> bool {
    &&& a.same_weights(b)
    &&& a.cache.len() == 65_536
    &&& b.cache.len() == 65_536
    &&& a.loaded ==> forall|key: u64| #[trigger]
        a.knows(key) == b.knows(key) && (a.knows(key) ==> a.recall(key) == b.recall(key))
}

proof fn lemma_same_sum(a: Brain, b: Brain, l: Seq<int>, j: int, n: nat)
    requires
        a.same_weights(b),
    ensures
        a.row_sum(l, j, n) == b.row_sum(l, j, n),
    decreases n,
{
    if n > 0 {
        lemma_same_sum(a, b, l, j, (n - 1) as nat);
    }
}

proof fn lemma_same_dot(a: Brain, b: Brain, l: Seq<int>, w: int, n: nat)
    requires
        a.same_weights(b),
    ensures
        a.dot(l, w, n) == b.dot(l, w, n),
    decreases n,
{
    if n > 0 {
        lemma_same_dot(a, b, l, w, (n - 1) as nat);
        lemma_same_sum(a, b, l, n - 1, l.len());
    }
}

/// Equal weights give equal answers.
pub proof fn lemma_same_answer(a: Brain, b: Brain, p: Position)
    requires
        a.same_weights(b),
    ensures
        a.answer(p) == b.answer(p),
{
    let us = p.stm as int;
    let k = crate::net::bucket(crate::bits::card(p.occ_bb()) as int);
    lemma_same_dot(a, b, crate::net::rows(p, us), k * 128, 64);
    lemma_same_dot(a, b, crate::net::rows(p, 1 - us), k * 128 + 64, 64);
}

/// What a network knows after it was asked.
proof fn lemma_told(n: Brain, p: Position, key: u64)
    requires
        n.cache.len() == 65_536,
        !n.knows(p.key),
    ensures
        n.told(p).cache.len() == 65_536,
        key % 65536 != p.key % 65536 ==> n.told(p).knows(key) == n.knows(key) && n.told(p).recall(
            key,
        ) == n.recall(key),
        key % 65536 == p.key % 65536 ==> n.told(p).knows(key) == (key / 16777216 == p.key
            / 16777216) && n.told(p).recall(key) == n.answer(p),
{
    infer::lemma_packed(p.key, n.gen, n.answer(p));
}

proof fn lemma_asked(a: Brain, b: Brain, p: Position)
    requires
        alike(a, b),
    ensures
        eval::score(a, p) == eval::score(b, p),
        alike(eval::after(a, p), eval::after(b, p)),
{
    reveal(alike);
    lemma_same_answer(a, b, p);
    assert(a.loaded ==> a.knows(p.key) == b.knows(p.key));
    if a.loaded && !p.bare() && !a.knows(p.key) {
        let (x, y) = (a.told(p), b.told(p));
        assert forall|key: u64| #[trigger]
            x.knows(key) == y.knows(key) && (x.knows(key) ==> x.recall(key) == y.recall(key)) by {
            lemma_told(a, p, key);
            lemma_told(b, p, key);
            assert(a.knows(key) == b.knows(key));
        }
        lemma_told(a, p, 0);
        lemma_told(b, p, 0);
    }
}

// ---------------------------------------------------------------------------
// Worlds
// ---------------------------------------------------------------------------

/// The lines are where they belong.
pub open spec fn lined_up(w: World) -> bool {
    &&& w.pv.len() == 16_384
    &&& w.pv_len.len() == 128
    &&& forall|i: int| 0 <= i < 128 ==> #[trigger] w.pv_len[i] <= 128 - i
}

/// The root's best moves agree.
pub open spec fn headed(a: World, b: World) -> bool {
    &&& a.pv_len[0] > 0 <==> b.pv_len[0] > 0
    &&& a.pv_len[0] > 0 ==> a.pv[0] == b.pv[0]
}

/// Twins, as far as plies before `n` go, and the root's line if `r`.
#[verifier::opaque]
pub open spec fn twin(a: World, b: World, n: int, r: bool) -> bool {
    &&& b == (World {
        seldepth: b.seldepth,
        stack: b.stack,
        pv: b.pv,
        pv_len: b.pv_len,
        brain: b.brain,
        published: b.published,
        ..a
    })
    &&& alike(a.brain, b.brain)
    &&& a.stack.len() == 136
    &&& b.stack.len() == 136
    &&& forall|i: int|
        0 <= i < 136 ==> (#[trigger] a.stack[i]).mv == b.stack[i].mv && a.stack[i].piece_to
            == b.stack[i].piece_to
    &&& forall|i: int| 0 <= i < n && i < 136 ==> (#[trigger] a.stack[i]).eval == b.stack[i].eval
    &&& lined_up(a)
    &&& lined_up(b)
    &&& r ==> headed(a, b)
}

/// Less is known of the plies after `m`.
proof fn lemma_fewer(a: World, b: World, n: int, m: int, r: bool)
    requires
        twin(a, b, n, r),
        m <= n,
    ensures
        twin(a, b, m, r),
{
    reveal(twin);
}

/// What twins agree on.
pub proof fn lemma_agree(a: World, b: World, n: int, r: bool)
    requires
        twin(a, b, n, r),
    ensures
        a.table == b.table,
        a.nodes == b.nodes,
        a.threads == b.threads,
        a.limits == b.limits,
        a.lmr == b.lmr,
        alike(a.brain, b.brain),
{
    reveal(twin);
}

proof fn lemma_prev(a: World, b: World, n: int, r: bool, ply: int)
    requires
        twin(a, b, n, r),
        0 <= ply < 136,
    ensures
        a.prev(ply, 1) == b.prev(ply, 1),
        a.prev(ply, 2) == b.prev(ply, 2),
{
    reveal(twin);
    if ply >= 1 {
        assert(a.stack[ply - 1].piece_to == b.stack[ply - 1].piece_to);
    }
    if ply >= 2 {
        assert(a.stack[ply - 2].piece_to == b.stack[ply - 2].piece_to);
    }
}

proof fn lemma_ranks(
    a: World,
    b: World,
    n: int,
    r: bool,
    p: Position,
    l: Seq<Move>,
    tt_move: Move,
    ply: int,
    thresh: int,
)
    requires
        twin(a, b, n, r),
        0 <= ply < 136,
    ensures
        a.ranks(p, l, tt_move, ply, thresh) == b.ranks(p, l, tt_move, ply, thresh),
{
    lemma_prev(a, b, n, r, ply);
    reveal(twin);
    reveal(World::ranks);
    assert(a.ranks(p, l, tt_move, ply, thresh) =~= b.ranks(p, l, tt_move, ply, thresh));
}

proof fn lemma_corrected(a: World, b: World, n: int, r: bool, p: Position, ply: int, raw: int)
    requires
        twin(a, b, n, r),
        0 <= ply < 136,
    ensures
        a.corrected(p, ply, raw) == b.corrected(p, ply, raw),
{
    lemma_prev(a, b, n, r, ply);
    reveal(twin);
    reveal(World::corrected);
}

proof fn lemma_memory(a: World, b: World, n: int, r: bool, p: Position, m: Move, ply: int)
    requires
        twin(a, b, n, r),
        0 <= ply < 136,
    ensures
        a.memory(p, m, ply) == b.memory(p, m, ply),
{
    lemma_prev(a, b, n, r, ply);
    reveal(twin);
    reveal(World::memory);
}

// ---------------------------------------------------------------------------
// Steps
// ---------------------------------------------------------------------------

proof fn lemma_counted(a: World, b: World, n: int, r: bool, ply: int)
    requires
        twin(a, b, n, r),
    ensures
        twin(a.ticked().counted(ply), b.ticked().counted(ply), n, r),
{
    reveal(twin);
    reveal(World::ticked);
    reveal(World::counted);
}

proof fn lemma_opened(a: World, b: World, n: int, r: bool, ply: int)
    requires
        twin(a, b, n, r),
        0 <= ply < 128,
    ensures
        twin(
            a.ticked().opened(ply).counted(ply).forgot(ply),
            b.ticked().opened(ply).counted(ply).forgot(ply),
            n,
            r || ply == 0,
        ),
        twin(
            a.ticked().opened(ply).counted(ply),
            b.ticked().opened(ply).counted(ply),
            n,
            r || ply == 0,
        ),
{
    reveal(twin);
    reveal(World::ticked);
    reveal(World::opened);
    reveal(World::counted);
    reveal(World::forgot);
}

proof fn lemma_assessed(a: World, b: World, n: int, r: bool, p: Position)
    requires
        twin(a, b, n, r),
    ensures
        twin(a.assessed(p), b.assessed(p), n, r),
        eval::score(a.brain, p) == eval::score(b.brain, p),
{
    reveal(twin);
    reveal(World::assessed);
    lemma_asked(a.brain, b.brain, p);
}

proof fn lemma_noted(
    a: World,
    b: World,
    n: int,
    r: bool,
    p: Position,
    m: Move,
    score: int,
    eval: int,
    depth: int,
    bound: int,
    ply: int,
)
    requires
        twin(a, b, n, r),
    ensures
        twin(
            a.noted(p, m, score, eval, depth, bound, ply),
            b.noted(p, m, score, eval, depth, bound, ply),
            n,
            r,
        ),
{
    reveal(twin);
    reveal(World::noted);
}

/// Marking a ply makes it one that is known.
proof fn lemma_marked(a: World, b: World, r: bool, ply: int, eval: int)
    requires
        twin(a, b, ply, r),
        0 <= ply < 136,
    ensures
        twin(a.marked(ply, eval), b.marked(ply, eval), ply + 1, r),
{
    reveal(twin);
    reveal(World::marked);
}

proof fn lemma_stepped(a: World, b: World, n: int, r: bool, ply: int, m: Move, step: int)
    requires
        twin(a, b, n, r),
        0 <= ply < 136,
    ensures
        twin(a.stepped(ply, m, step), b.stepped(ply, m, step), n, r),
{
    reveal(twin);
    reveal(World::stepped);
}

proof fn lemma_lined(a: World, b: World, n: int, r: bool, ply: int, m: Move)
    requires
        twin(a, b, n, r),
        0 <= ply < 127,
    ensures
        twin(a.lined(ply, m), b.lined(ply, m), n, r),
{
    reveal(twin);
    reveal(World::lined);
    assert(a.pv_len[ply + 1] <= 128 - (ply + 1));
    assert(b.pv_len[ply + 1] <= 128 - (ply + 1));
}

proof fn lemma_taught(a: World, b: World, n: int, r: bool, p: Position, ply: int, diff: int, depth: int)
    requires
        twin(a, b, n, r),
        0 <= ply < 136,
    ensures
        twin(a.taught(p, ply, diff, depth), b.taught(p, ply, diff, depth), n, r),
{
    lemma_prev(a, b, n, r, ply);
    reveal(twin);
    reveal(World::taught);
}

proof fn lemma_rewarded(a: World, b: World, n: int, r: bool, p: Position, m: Move, ply: int, bonus: int)
    requires
        twin(a, b, n, r),
        0 <= ply < 136,
    ensures
        twin(a.rewarded(p, m, ply, bonus), b.rewarded(p, m, ply, bonus), n, r),
{
    lemma_prev(a, b, n, r, ply);
    reveal(twin);
    reveal(World::rewarded);
}

proof fn lemma_quiets(
    a: World,
    b: World,
    n: int,
    r: bool,
    p: Position,
    l: Seq<Move>,
    best: Move,
    ply: int,
    malus: int,
    k: nat,
)
    requires
        twin(a, b, n, r),
        0 <= ply < 136,
    ensures
        twin(
            a.quiets_punished(p, l, best, ply, malus, k),
            b.quiets_punished(p, l, best, ply, malus, k),
            n,
            r,
        ),
    decreases k,
{
    if k > 0 {
        let j = (k - 1) as nat;
        lemma_quiets(a, b, n, r, p, l, best, ply, malus, j);
        lemma_rewarded(
            a.quiets_punished(p, l, best, ply, malus, j),
            b.quiets_punished(p, l, best, ply, malus, j),
            n,
            r,
            p,
            l[j as int],
            ply,
            malus,
        );
    }
}

proof fn lemma_captures(
    a: World,
    b: World,
    n: int,
    r: bool,
    p: Position,
    l: Seq<Move>,
    best: Move,
    malus: int,
    k: nat,
)
    requires
        twin(a, b, n, r),
    ensures
        twin(
            a.captures_punished(p, l, best, malus, k),
            b.captures_punished(p, l, best, malus, k),
            n,
            r,
        ),
    decreases k,
{
    if k > 0 {
        lemma_captures(a, b, n, r, p, l, best, malus, (k - 1) as nat);
        reveal(twin);
    }
}

proof fn lemma_credited(
    a: World,
    b: World,
    n: int,
    r: bool,
    p: Position,
    best: Move,
    ply: int,
    depth: int,
    quiets: Seq<Move>,
    noisy: Seq<Move>,
)
    requires
        twin(a, b, n, r),
        0 <= ply < 136,
    ensures
        twin(
            a.credited(p, best, ply, depth, quiets, noisy),
            b.credited(p, best, ply, depth, quiets, noisy),
            n,
            r,
        ),
{
    reveal(World::credited);
    let bonus = mind::clamp(155 * depth - 80, 0, 1200);
    if mind::is_noisy(best) {
        let (x, y) = (a.capt_rewarded(p, best, bonus), b.capt_rewarded(p, best, bonus));
        assert(twin(x, y, n, r)) by {
            reveal(twin);
        }
        lemma_captures(x, y, n, r, p, noisy, best, -bonus, noisy.len());
    } else {
        lemma_rewarded(a, b, n, r, p, best, ply, bonus);
        let (a1, b1) = (a.rewarded(p, best, ply, bonus), b.rewarded(p, best, ply, bonus));
        let (a2, b2) = (
            a1.killed(ply, best).countered(ply, best),
            b1.killed(ply, best).countered(ply, best),
        );
        assert(twin(a2, b2, n, r)) by {
            lemma_prev(a1, b1, n, r, ply);
            reveal(twin);
        }
        lemma_quiets(a2, b2, n, r, p, quiets, best, ply, -bonus, quiets.len());
        lemma_captures(
            a2.quiets_punished(p, quiets, best, ply, -bonus, quiets.len()),
            b2.quiets_punished(p, quiets, best, ply, -bonus, quiets.len()),
            n,
            r,
            p,
            noisy,
            best,
            -bonus,
            noisy.len(),
        );
    }
}

// ---------------------------------------------------------------------------
// Searches
// ---------------------------------------------------------------------------

proof fn lemma_horizon(a: World, b: World, n: int, r: bool, p: Position)
    requires
        twin(a, b, n, r),
    ensures
        tree::horizon(a, p).1 == tree::horizon(b, p).1,
        twin(tree::horizon(a, p).0, tree::horizon(b, p).0, n, r),
{
    lemma_assessed(a, b, n, r, p);
}

proof fn lemma_calm(
    a: World,
    b: World,
    n: int,
    r: bool,
    p: Position,
    alpha: int,
    beta: int,
    ply: int,
    pv: bool,
)
    requires
        twin(a, b, n, r),
        0 <= ply <= 127,
    ensures
        ({
            let (x, y) = (
                tree::calm(a, p, alpha, beta, ply, pv),
                tree::calm(b, p, alpha, beta, ply, pv),
            );
            x.1 == y.1 && twin(x.0, y.0, n, r)
        }),
    decreases 128 - ply, 0int, 2int, 0int,
{
    let (a1, b1) = (a.ticked().counted(ply), b.ticked().counted(ply));
    lemma_counted(a, b, n, r, ply);
    lemma_agree(a1, b1, n, r);
    lemma_horizon(a1, b1, n, r, p);
    if ply < 127 {
        let h = a1.table.found(p.key, ply);
        let in_check = p.checkers != 0;
        lemma_assessed(a1, b1, n, r, p);
        let raw = if in_check {
            -32_500
        } else if h is Some {
            h->0.eval as int
        } else {
            eval::score(a1.brain, p)
        };
        let (a2, b2) = if in_check || h is Some {
            (a1, b1)
        } else {
            (a1.assessed(p), b1.assessed(p))
        };
        lemma_corrected(a2, b2, n, r, p, ply, raw);
        let stand = if in_check {
            -32_500
        } else {
            a2.corrected(p, ply, raw)
        };
        lemma_noted(a2, b2, n, r, p, Move(0), stand, raw, 0, 2, ply);
        let l = tree::menu(
            p,
            if in_check {
                GenKind::All
            } else {
                GenKind::Noisy
            },
        );
        let tt_move = if h is Some {
            h->0.mv
        } else {
            Move(0)
        };
        let thresh = if in_check {
            -20int
        } else {
            0
        };
        lemma_ranks(a2, b2, n, r, p, l, tt_move, ply, thresh);
        lemma_sift(
            a2,
            b2,
            n,
            r,
            p,
            Calm { beta, ply, pv, in_check, raw, stand },
            Sift {
                l,
                sc: a2.ranks(p, l, tt_move, ply, thresh),
                i: 0,
                alpha: if in_check {
                    alpha
                } else {
                    clock::max(alpha, stand)
                },
                best: stand,
                best_move: Move(0),
                bound: 1,
            },
        );
    }
}

proof fn lemma_sift(a: World, b: World, n: int, r: bool, p: Position, c: Calm, s: Sift)
    requires
        twin(a, b, n, r),
        0 <= c.ply <= 127,
    ensures
        ({
            let (x, y) = (tree::sift(a, p, c, s), tree::sift(b, p, c, s));
            x.1 == y.1 && twin(x.0, y.0, n, r)
        }),
    decreases 128 - c.ply, 0int, 1int, s.l.len() - s.i,
{
    lemma_noted(a, b, n, r, p, s.best_move, s.best, c.raw, 0, s.bound, c.ply);
    if 0 <= s.i < s.l.len() && c.ply < 127 {
        movegen::lemma_best_upto(s.sc, s.i, s.l.len() as int);
        let s1 = s.picked();
        let m = s1.l[s.i];
        let s2 = Sift { i: s.i + 1, ..s1 };
        let q = make::after(p, m);
        lemma_sift(a, b, n, r, p, c, s2);
        lemma_calm(a, b, n, r, q, -c.beta, -s.alpha, c.ply + 1, c.pv);
        let (a1, v) = tree::calm(a, q, -c.beta, -s.alpha, c.ply + 1, c.pv);
        let b1 = tree::calm(b, q, -c.beta, -s.alpha, c.ply + 1, c.pv).0;
        lemma_sift(a1, b1, n, r, p, c, s2);
        lemma_sift(a1, b1, n, r, p, c, Sift { best: -v, ..s2 });
        lemma_sift(
            a1,
            b1,
            n,
            r,
            p,
            c,
            Sift { best: -v, alpha: -v, best_move: m, bound: 3, ..s2 },
        );
        lemma_noted(a1, b1, n, r, p, m, -v, c.raw, 0, 2, c.ply);
    }
}

proof fn lemma_framed(
    a: World,
    b: World,
    r: bool,
    p: Position,
    depth: int,
    alpha: int,
    beta: int,
    ply: int,
    cut: bool,
    pv: bool,
    ex: Move,
    h: Option<Hit>,
)
    requires
        twin(a, b, ply, r),
        0 <= ply <= 127,
    ensures
        ({
            let (x, y) = (
                tree::framed(a, p, depth, alpha, beta, ply, cut, pv, ex, h),
                tree::framed(b, p, depth, alpha, beta, ply, cut, pv, ex, h),
            );
            &&& x.1 == y.1
            &&& x.1.ply == ply
            &&& x.1.ex == ex
            &&& twin(x.0, y.0, ply + 1, r)
        }),
{
    lemma_assessed(a, b, ply, r, p);
    let in_check = p.checkers != 0;
    let told = h matches Some(x) && crate::geom::abs(x.eval as int) < 31_872;
    let raw = if in_check {
        -32_500
    } else if told {
        h->0.eval as int
    } else {
        eval::score(a.brain, p)
    };
    let (a1, b1) = if in_check || told {
        (a, b)
    } else {
        (a.assessed(p), b.assessed(p))
    };
    lemma_corrected(a1, b1, ply, r, p, ply, raw);
    let corrected = if in_check {
        -32_500
    } else {
        a1.corrected(p, ply, raw)
    };
    lemma_marked(a1, b1, r, ply, corrected);
    let (a2, b2) = (a1.marked(ply, corrected), b1.marked(ply, corrected));
    assert(tree::rising(a2, ply, in_check, corrected) == tree::rising(b2, ply, in_check, corrected))
        by {
        reveal(twin);
        if ply >= 2 {
            assert(a2.stack[ply - 2].eval == b2.stack[ply - 2].eval);
        }
        if ply >= 4 {
            assert(a2.stack[ply - 4].eval == b2.stack[ply - 4].eval);
        }
    }
}

/// Searches of twins agree.
pub proof fn lemma_nega(
    a: World,
    b: World,
    r: bool,
    p: Position,
    depth: int,
    alpha: int,
    beta: int,
    ply: int,
    cut: bool,
    pv: bool,
    ex: Move,
)
    requires
        twin(a, b, ply, r),
        0 <= ply <= 127,
    ensures
        ({
            let (x, y) = (
                tree::nega(a, p, depth, alpha, beta, ply, cut, pv, ex),
                tree::nega(b, p, depth, alpha, beta, ply, cut, pv, ex),
            );
            x.1 == y.1 && twin(x.0, y.0, ply, r || depth > 0 && ply == 0)
        }),
    decreases
            128 - ply,
            if ex == Move(0) {
                1int
            } else {
                0
            },
            9int,
            0int,
{
    if depth <= 0 {
        lemma_calm(a, b, ply, r, p, alpha, beta, ply, pv);
    } else {
        let r1 = r || ply == 0;
        lemma_opened(a, b, ply, r, ply);
        let (a1, b1) = (
            a.ticked().opened(ply).counted(ply),
            b.ticked().opened(ply).counted(ply),
        );
        lemma_horizon(a1, b1, ply, r1, p);
        if ply < 127 {
            let lo = if ply == 0 {
                alpha
            } else {
                clock::max(alpha, ply - 32_000)
            };
            let hi = if ply == 0 {
                beta
            } else {
                clock::min(beta, 31_999 - ply)
            };
            let (a2, b2) = (a1.forgot(ply), b1.forgot(ply));
            lemma_agree(a2, b2, ply, r1);
            let h = if ex == Move(0) {
                a2.table.found(p.key, ply)
            } else {
                None
            };
            if h is Some {
                lemma_rewarded(a2, b2, ply, r1, p, h->0.mv, ply, depth * 100);
            }
            lemma_framed(a2, b2, r1, p, depth, lo, hi, ply, cut, pv, ex, h);
            let (a3, f) = tree::framed(a2, p, depth, lo, hi, ply, cut, pv, ex, h);
            let b3 = tree::framed(b2, p, depth, lo, hi, ply, cut, pv, ex, h).0;
            lemma_node(a3, b3, r1, p, f);
            lemma_fewer(tree::node(a3, p, f).0, tree::node(b3, p, f).0, ply + 1, ply, r1);
        }
    }
}

proof fn lemma_node(a: World, b: World, r: bool, p: Position, f: Frame)
    requires
        twin(a, b, f.ply + 1, r),
        f.ply < 127,
    ensures
        ({
            let (x, y) = (tree::node(a, p, f), tree::node(b, p, f));
            x.1 == y.1 && twin(x.0, y.0, f.ply + 1, r)
        }),
    decreases 128 - f.ply, f.whole(), 8int, 0int,
{
    lemma_shortcut(a, b, r, p, f);
    let (a1, b1) = (tree::shortcut(a, p, f).0, tree::shortcut(b, p, f).0);
    lemma_tour(a1, b1, r, p, tree::eased(f));
}

proof fn lemma_shortcut(a: World, b: World, r: bool, p: Position, f: Frame)
    requires
        twin(a, b, f.ply + 1, r),
        f.ply < 127,
    ensures
        ({
            let (x, y) = (tree::shortcut(a, p, f), tree::shortcut(b, p, f));
            x.1 == y.1 && twin(x.0, y.0, f.ply + 1, r)
        }),
    decreases 128 - f.ply, f.whole(), 7int, 0int,
{
    let n = f.ply + 1;
    lemma_calm(a, b, n, r, p, f.alpha - 1, f.alpha as int, f.ply as int, false);
    let (a1, b1) = (tree::razor(a, p, f).0, tree::razor(b, p, f).0);
    lemma_pass(a1, b1, r, p, f);
    let (a2, b2) = (tree::pass(a1, p, f).0, tree::pass(b1, p, f).0);
    lemma_prob(a2, b2, r, p, f);
}

proof fn lemma_pass(a: World, b: World, r: bool, p: Position, f: Frame)
    requires
        twin(a, b, f.ply + 1, r),
        f.ply < 127,
    ensures
        ({
            let (x, y) = (tree::pass(a, p, f), tree::pass(b, p, f));
            x.1 == y.1 && twin(x.0, y.0, f.ply + 1, r)
        }),
    decreases 128 - f.ply, f.whole(), 6int, 0int,
{
    let ply = f.ply as int;
    assert(tree::passes(a, p, f) == tree::passes(b, p, f)) by {
        reveal(twin);
        let i = if ply > 0 {
            ply - 1
        } else {
            0
        };
        assert(a.stack[i].mv == b.stack[i].mv);
    }
    let d = f.depth - (4 + f.depth / 3 + clock::min(
        eval::quot(f.eval - f.beta, mind::margin_of(200)),
        3,
    ));
    lemma_stepped(a, b, ply + 1, r, ply, Move(0), 0);
    lemma_nega(
        a.stepped(ply, Move(0), 0),
        b.stepped(ply, Move(0), 0),
        r,
        make::after_null(p),
        d,
        -f.beta,
        1 - f.beta,
        ply + 1,
        !f.cut,
        false,
        Move(0),
    );
}

proof fn lemma_prob(a: World, b: World, r: bool, p: Position, f: Frame)
    requires
        twin(a, b, f.ply + 1, r),
        f.ply < 127,
    ensures
        ({
            let (x, y) = (tree::prob(a, p, f), tree::prob(b, p, f));
            x.1 == y.1 && twin(x.0, y.0, f.ply + 1, r)
        }),
    decreases 128 - f.ply, f.whole(), 6int, 0int,
{
    let l = tree::menu(p, GenKind::Noisy);
    lemma_ranks(a, b, f.ply + 1, r, p, l, f.tt_move, f.ply as int, -20);
    lemma_prob_from(a, b, r, p, f, l, a.ranks(p, l, f.tt_move, f.ply as int, -20), 0);
}

proof fn lemma_prob_from(
    a: World,
    b: World,
    r: bool,
    p: Position,
    f: Frame,
    l: Seq<Move>,
    sc: Seq<i32>,
    i: int,
)
    requires
        twin(a, b, f.ply + 1, r),
        f.ply < 127,
    ensures
        ({
            let (x, y) = (
                tree::prob_from(a, p, f, l, sc, i),
                tree::prob_from(b, p, f, l, sc, i),
            );
            x.1 == y.1 && twin(x.0, y.0, f.ply + 1, r)
        }),
    decreases 128 - f.ply, f.whole(), 5int, l.len() - i,
{
    if 0 <= i < l.len() {
        let n = f.ply + 1;
        movegen::lemma_best_upto(sc, i, l.len() as int);
        let k = movegen::best_upto(sc, i, l.len() as int);
        let (l1, sc1) = (movegen::swapped(l, i, k), movegen::swapped(sc, i, k));
        let m = l1[i];
        let q = make::after(p, m);
        let bar = tree::bar(f);
        let step = learn::step_of(p, m);
        lemma_prob_from(a, b, r, p, f, l1, sc1, i + 1);
        lemma_stepped(a, b, n, r, f.ply as int, m, step);
        let (a1, b1) = (a.stepped(f.ply as int, m, step), b.stepped(f.ply as int, m, step));
        lemma_calm(a1, b1, n, r, q, -bar, 1 - bar, n, false);
        let (a2, x) = tree::calm(a1, q, -bar, 1 - bar, n, false);
        let b2 = tree::calm(b1, q, -bar, 1 - bar, n, false).0;
        lemma_nega(a2, b2, r, q, f.depth - 4, -bar, 1 - bar, n, !f.cut, false, Move(0));
        let (a3, b3, v) = if -x >= bar {
            let y = tree::nega(a2, q, f.depth - 4, -bar, 1 - bar, n, !f.cut, false, Move(0));
            let z = tree::nega(b2, q, f.depth - 4, -bar, 1 - bar, n, !f.cut, false, Move(0));
            (y.0, z.0, y.1)
        } else {
            (a2, b2, x)
        };
        lemma_noted(a3, b3, n, r, p, m, -v, f.raw as int, f.depth - 3, 2, f.ply as int);
        lemma_prob_from(a3, b3, r, p, f, l1, sc1, i + 1);
    }
}

proof fn lemma_tour(a: World, b: World, r: bool, p: Position, f: Frame)
    requires
        twin(a, b, f.ply + 1, r),
        f.ply < 127,
    ensures
        ({
            let (x, y) = (tree::tour(a, p, f), tree::tour(b, p, f));
            x.1 == y.1 && twin(x.0, y.0, f.ply + 1, r)
        }),
    decreases 128 - f.ply, f.whole(), 6int, 0int,
{
    let l = tree::menu(p, GenKind::All);
    lemma_ranks(a, b, f.ply + 1, r, p, l, f.tt_move, f.ply as int, -20);
    lemma_walk(
        a,
        b,
        r,
        p,
        f,
        Run {
            l,
            sc: a.ranks(p, l, f.tt_move, f.ply as int, -20),
            i: 0,
            alpha: f.alpha as int,
            best: -32_500,
            best_move: Move(0),
            bound: 1,
            quiets: Seq::empty(),
            takes: Seq::empty(),
            played: 0,
            skip: false,
        },
    );
}

proof fn lemma_reach(a: World, b: World, r: bool, p: Position, f: Frame, m: Move)
    requires
        twin(a, b, f.ply + 1, r),
        f.ply < 127,
    ensures
        ({
            let (x, y) = (tree::reach(a, p, f, m), tree::reach(b, p, f, m));
            x.1 == y.1 && twin(x.0, y.0, f.ply + 1, r)
        }),
    decreases 128 - f.ply, f.whole(), 3int, 0int,
{
    let n = f.ply + 1;
    lemma_agree(a, b, n, r);
    if tree::alone(f, m) && f.ply > 0 {
        let s = tree::below(f);
        lemma_again(a, b, r, p, (f.depth - 1) / 2, s - 1, s, f.ply as int, f.cut, m);
    }
}

/// A second search of the same ply still agrees on that ply.
proof fn lemma_again(
    a: World,
    b: World,
    r: bool,
    p: Position,
    depth: int,
    alpha: int,
    beta: int,
    ply: int,
    cut: bool,
    ex: Move,
)
    requires
        twin(a, b, ply + 1, r),
        0 < ply < 127,
        ex != Move(0),
    ensures
        ({
            let (x, y) = (
                tree::nega(a, p, depth, alpha, beta, ply, cut, false, ex),
                tree::nega(b, p, depth, alpha, beta, ply, cut, false, ex),
            );
            x.1 == y.1 && twin(x.0, y.0, ply + 1, r)
        }),
    decreases 128 - ply, 0int, 10int, 0int,
{
    let n = ply + 1;
    if depth <= 0 {
        lemma_calm(a, b, n, r, p, alpha, beta, ply, false);
    } else {
        lemma_opened(a, b, n, r, ply);
        let (a2, b2) = (
            a.ticked().opened(ply).counted(ply).forgot(ply),
            b.ticked().opened(ply).counted(ply).forgot(ply),
        );
        let lo = clock::max(alpha, ply - 32_000);
        let hi = clock::min(beta, 31_999 - ply);
        lemma_fewer(a2, b2, n, ply, r);
        lemma_framed(a2, b2, r, p, depth, lo, hi, ply, cut, false, ex, None);
        let (a3, f) = tree::framed(a2, p, depth, lo, hi, ply, cut, false, ex, None);
        let b3 = tree::framed(b2, p, depth, lo, hi, ply, cut, false, ex, None).0;
        lemma_node(a3, b3, r, p, f);
    }
}

proof fn lemma_reduction(
    a: World,
    b: World,
    n: int,
    r: bool,
    p: Position,
    f: Frame,
    played: int,
    m: Move,
    d: int,
)
    requires
        twin(a, b, n, r),
        f.ply < 127,
    ensures
        tree::reduction(a, p, f, played, m, d) == tree::reduction(b, p, f, played, m, d),
{
    lemma_agree(a, b, n, r);
    lemma_memory(a, b, n, r, p, m, f.ply as int);
}

proof fn lemma_attempt(
    a: World,
    b: World,
    r: bool,
    p: Position,
    f: Frame,
    alpha: int,
    played: int,
    m: Move,
    ext: int,
)
    requires
        twin(a, b, f.ply + 1, r),
        f.ply < 127,
    ensures
        ({
            let (x, y) = (
                tree::attempt(a, p, f, alpha, played, m, ext),
                tree::attempt(b, p, f, alpha, played, m, ext),
            );
            x.1 == y.1 && twin(x.0, y.0, f.ply + 1, r)
        }),
    decreases 128 - f.ply, f.whole(), 3int, 0int,
{
    let d = f.depth - 1 + ext;
    let q = make::after(p, m);
    let step = learn::step_of(p, m);
    let n = f.ply + 1;
    let beta = f.beta as int;
    lemma_stepped(a, b, n, r, f.ply as int, m, step);
    let (a1, b1) = (a.stepped(f.ply as int, m, step), b.stepped(f.ply as int, m, step));
    if played == 0 {
        lemma_nega(a1, b1, r, q, d, -beta, -alpha, n, false, f.pv, Move(0));
    } else {
        lemma_reduction(a, b, n, r, p, f, played, m, d);
        let rd = d - tree::reduction(a, p, f, played, m, d) / 1024;
        lemma_nega(a1, b1, r, q, rd, -alpha - 1, -alpha, n, true, false, Move(0));
        let (a2, v2) = tree::nega(a1, q, rd, -alpha - 1, -alpha, n, true, false, Move(0));
        let b2 = tree::nega(b1, q, rd, -alpha - 1, -alpha, n, true, false, Move(0)).0;
        lemma_nega(a2, b2, r, q, d, -alpha - 1, -alpha, n, !f.cut, false, Move(0));
        let (a3, b3) = if -v2 > alpha && rd < d {
            (
                tree::nega(a2, q, d, -alpha - 1, -alpha, n, !f.cut, false, Move(0)).0,
                tree::nega(b2, q, d, -alpha - 1, -alpha, n, !f.cut, false, Move(0)).0,
            )
        } else {
            (a2, b2)
        };
        lemma_nega(a3, b3, r, q, d, -beta, -alpha, n, false, true, Move(0));
    }
}

proof fn lemma_ended(a: World, b: World, n: int, r: bool, p: Position, f: Frame, s: Run)
    requires
        twin(a, b, n, r),
        f.ply < 127,
    ensures
        ({
            let (x, y) = (tree::ended(a, p, f, s), tree::ended(b, p, f, s));
            x.1 == y.1 && twin(x.0, y.0, n, r)
        }),
{
    let ply = f.ply as int;
    lemma_noted(a, b, n, r, p, s.best_move, s.best, f.raw as int, f.depth as int, s.bound, ply);
    let a1 = a.noted(p, s.best_move, s.best, f.raw as int, f.depth as int, s.bound, ply);
    let b1 = b.noted(p, s.best_move, s.best, f.raw as int, f.depth as int, s.bound, ply);
    lemma_taught(a1, b1, n, r, p, ply, s.best - f.corrected, f.depth as int);
}

proof fn lemma_walk(a: World, b: World, r: bool, p: Position, f: Frame, s: Run)
    requires
        twin(a, b, f.ply + 1, r),
        f.ply < 127,
    ensures
        ({
            let (x, y) = (tree::walk(a, p, f, s), tree::walk(b, p, f, s));
            x.1 == y.1 && twin(x.0, y.0, f.ply + 1, r)
        }),
    decreases 128 - f.ply, f.whole(), 4int, s.l.len() - s.i,
{
    let n = f.ply + 1;
    lemma_ended(a, b, n, r, p, f, s);
    if 0 <= s.i < s.l.len() {
        movegen::lemma_best_upto(s.sc, s.i, s.l.len() as int);
        let s1 = s.picked();
        let m = s1.l[s.i];
        let s2 = Run { i: s.i + 1, ..s1 };
        lemma_agree(a, b, n, r);
        lemma_memory(a, b, n, r, p, m, f.ply as int);
        lemma_walk(a, b, r, p, f, s2);
        lemma_walk(a, b, r, p, f, Run { skip: true, ..s2 });
        lemma_reach(a, b, r, p, f, m);
        let (a1, e) = tree::reach(a, p, f, m);
        let b1 = tree::reach(b, p, f, m).0;
        if let Reach::By(x) = e {
            lemma_attempt(a1, b1, r, p, f, s.alpha, s.played, m, x as int);
            let (a2, v) = tree::attempt(a1, p, f, s.alpha, s.played, m, x as int);
            let b2 = tree::attempt(b1, p, f, s.alpha, s.played, m, x as int).0;
            lemma_lined(a2, b2, n, r, f.ply as int, m);
            let (a3, b3) = if f.pv {
                (a2.lined(f.ply as int, m), b2.lined(f.ply as int, m))
            } else {
                (a2, b2)
            };
            lemma_walk(a2, b2, r, p, f, s2.tried(m));
            lemma_walk(a2, b2, r, p, f, Run { best: v, ..s2.tried(m) });
            lemma_walk(
                a3,
                b3,
                r,
                p,
                f,
                Run { best: v, alpha: v, best_move: m, bound: 3, ..s2.tried(m) },
            );
            lemma_credited(
                a3,
                b3,
                n,
                r,
                p,
                m,
                f.ply as int,
                f.depth as int,
                s.quiets,
                s.takes,
            );
            lemma_ended(
                a3.credited(p, m, f.ply as int, f.depth as int, s.quiets, s.takes),
                b3.credited(p, m, f.ply as int, f.depth as int, s.quiets, s.takes),
                n,
                r,
                p,
                f,
                Run {
                    best: v,
                    alpha: v,
                    best_move: m,
                    bound: 2,
                    played: s.played + 1,
                    ..s2
                },
            );
        }
    }
}

} // verus!
