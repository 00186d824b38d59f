//! What the nodes below the root promise: quiescence, pruning and the table.

use vstd::prelude::*;
use crate::eval;
use crate::learn;
use crate::legal;
use crate::make;
use crate::mind::World;
use crate::movegen;
use crate::movegen::GenKind;
use crate::moves::Move;
use crate::pos::Position;
use crate::rules;
use crate::saylaw;
use crate::searchlaw;
use crate::see;
use crate::tree;
use crate::tree::{Calm, Fate, Frame, Reach, Sift};
use crate::tt::Hit;

verus! {

// ---------------------------------------------------------------------------
// Quiescence
// ---------------------------------------------------------------------------

/// A move that quiescence searched: its score, and the search that gave it.
pub struct Sip {
    pub m: Move,
    pub v: int,
    pub w: World,
    pub lo: int,
    pub hi: int,
}

/// `t` was searched fairly: a legal move, its score what the opponent gets out
/// of the position after it, in what is left of the window.
pub open spec fn sipped(p: Position, t: Sip, ply: int, alpha: int, beta: int, pv: bool) -> bool {
    &&& rules::legal(p, t.m)
    &&& t.v == -tree::calm(t.w, make::after(p, t.m), t.lo, t.hi, ply + 1, pv).1
    &&& t.lo == -beta
    &&& alpha <= -t.hi < beta
}

pub open spec fn tasted(log: Seq<Sip>, m: Move) -> bool {
    exists|i: int| 0 <= i < log.len() && (#[trigger] log[i]).m == m
}

pub open spec fn topped(log: Seq<Sip>, v: int) -> bool {
    exists|i: int| 0 <= i < log.len() && (#[trigger] log[i]).v == v
}

pub open spec fn top(log: Seq<Sip>, v: int) -> bool {
    forall|i: int| 0 <= i < log.len() ==> (#[trigger] log[i]).v <= v
}

pub open spec fn all_sipped(p: Position, log: Seq<Sip>, ply: int, alpha: int, beta: int, pv: bool) -> bool {
    forall|i: int| 0 <= i < log.len() ==> sipped(p, #[trigger] log[i], ply, alpha, beta, pv)
}

/// `m` need not be looked at: it loses material, or could not bring the score
/// near `alpha` even if what it wins came on top with a pawn and a half.
pub open spec fn pointless(p: Position, m: Move, stand: int, alpha: int) -> bool {
    see::see(p, m) < 0 || stand + see::gain(p, m) + 150 < alpha
}

spec fn listed(p: Position, in_check: bool) -> Seq<Move> {
    movegen::move_list(
        p,
        if in_check {
            GenKind::All
        } else {
            GenKind::Noisy
        },
    )
}

spec fn sifting(p: Position, c: Calm, s: Sift, alpha: int, log: Seq<Sip>) -> bool {
    &&& p.wf()
    &&& 0 <= c.ply < 127
    &&& 0 <= s.i <= s.l.len()
    &&& s.sc.len() == s.l.len()
    &&& all_sipped(p, log, c.ply, alpha, c.beta, c.pv)
    &&& top(log, s.best)
    &&& s.best >= c.stand
    &&& s.best == c.stand || topped(log, s.best)
    &&& s.alpha == if s.best > alpha {
        s.best
    } else {
        alpha
    }
    &&& s.alpha < c.beta
    &&& forall|m: Move| #[trigger] listed(p, c.in_check).contains(m) ==> s.l.contains(m)
    &&& forall|j: int|
        0 <= j < s.l.len() ==> listed(p, c.in_check).contains(#[trigger] s.l[j])
    &&& forall|j: int|
        #![trigger s.sc[j]]
        0 <= j < s.l.len() && !c.in_check && s.sc[j] < 0 ==> see::see(p, s.l[j]) < 0
    &&& forall|j: int|
        0 <= j < s.i ==> tasted(log, #[trigger] s.l[j]) || !c.in_check && pointless(
            p,
            s.l[j],
            c.stand,
            s.alpha,
        )
}

/// What quiescence comes to: `r` is the score and `log` is what it rests on.
pub open spec fn settled_down(
    r: int,
    p: Position,
    in_check: bool,
    stand: int,
    ply: int,
    alpha: int,
    beta: int,
    pv: bool,
    log: Seq<Sip>,
) -> bool {
    &&& all_sipped(p, log, ply, alpha, beta, pv)
    // Never worse than standing pat, nor than any move that was searched, and
    // always one of these.
    &&& top(log, r)
    &&& r >= stand
    &&& r == stand || topped(log, r)
    // Unless there was a cutoff every evasion was searched, and every capture
    // and promotion to a queen that has a point.
    &&& r < beta ==> forall|m: Move|
        #![trigger tasted(log, m)]
        movegen::move_list(p, GenKind::All).contains(m) && (in_check || m.k() == 4 || m.k() == 5
            || m.k() == 11 || m.k() == 15) ==> tasted(log, m) || !in_check && pointless(
            p,
            m,
            stand,
            if r > alpha {
                r
            } else {
                alpha
            },
        )
}

proof fn lemma_swap(l: Seq<Move>, i: int, b: int, m: Move)
    requires
        0 <= i <= b < l.len(),
    ensures
        l.contains(m) <==> movegen::swapped(l, i, b).contains(m),
{
    let x = movegen::swapped(l, i, b);
    assert(x[i] == l[b] && x[b] == l[i]);
    if l.contains(m) {
        let j = choose|j: int| 0 <= j < l.len() && l[j] == m;
        let k = if j == i {
            b
        } else if j == b {
            i
        } else {
            j
        };
        assert(x[k] == m);
    }
    if x.contains(m) {
        let j = choose|j: int| 0 <= j < x.len() && x[j] == m;
        let k = if j == i {
            b
        } else if j == b {
            i
        } else {
            j
        };
        assert(l[k] == m);
    }
}

proof fn lemma_next(p: Position, c: Calm, s: Sift, alpha: int, log: Seq<Sip>)
    requires
        sifting(p, c, s, alpha, log),
        s.i < s.l.len(),
    ensures
        sifting(p, c, s.picked(), alpha, log),
        s.picked().l.len() == s.l.len(),
        rules::legal(p, s.picked().l[s.i]),
        forall|j: int| s.i <= j < s.l.len() ==> s.picked().sc[s.i] >= #[trigger] s.picked().sc[j],
{
    movegen::lemma_best_upto(s.sc, s.i, s.l.len() as int);
    let b = movegen::best_upto(s.sc, s.i, s.l.len() as int);
    let x = s.picked();
    let q = listed(p, c.in_check);
    assert forall|m: Move| #[trigger] q.contains(m) implies x.l.contains(m) by {
        lemma_swap(s.l, s.i, b, m);
    }
    assert forall|j: int| 0 <= j < x.l.len() implies q.contains(#[trigger] x.l[j]) by {
        lemma_swap(s.l, s.i, b, x.l[j]);
        let k = choose|k: int| 0 <= k < s.l.len() && s.l[k] == x.l[j];
        assert(q.contains(s.l[k]));
    }
    assert forall|j: int|
        #![trigger x.sc[j]]
        0 <= j < x.l.len() && !c.in_check && x.sc[j] < 0 implies see::see(p, x.l[j]) < 0 by {
        let k = if j == s.i {
            b
        } else if j == b {
            s.i
        } else {
            j
        };
        assert(s.sc[k] == x.sc[j] && s.l[k] == x.l[j]);
    }
    assert forall|j: int| 0 <= j < x.i implies tasted(log, #[trigger] x.l[j]) || !c.in_check
        && pointless(p, x.l[j], c.stand, x.alpha) by {
        assert(x.l[j] == s.l[j]);
    }
    assert forall|j: int| s.i <= j < s.l.len() implies x.sc[s.i] >= #[trigger] x.sc[j] by {
        if j > s.i {
            searchlaw::law_picks_are_sorted(s.sc, s.i, j);
        }
    }
    let m = x.l[s.i];
    assert(q.contains(m));
    if !c.in_check {
        legal::law_noisy_is_tactical(p, m);
    }
    legal::law_generated_is_legal(p, m);
}

proof fn lemma_all_done(p: Position, c: Calm, s: Sift, alpha: int, log: Seq<Sip>)
    requires
        sifting(p, c, s, alpha, log),
        forall|j: int|
            #![trigger s.l[j]]
            s.i <= j < s.l.len() ==> !c.in_check && see::see(p, s.l[j]) < 0,
    ensures
        settled_down(s.best, p, c.in_check, c.stand, c.ply, alpha, c.beta, c.pv, log),
{
    assert forall|m: Move|
        #![trigger tasted(log, m)]
        movegen::move_list(p, GenKind::All).contains(m) && (c.in_check || m.k() == 4 || m.k() == 5
            || m.k() == 11 || m.k() == 15) implies tasted(log, m) || !c.in_check && pointless(
        p,
        m,
        c.stand,
        s.alpha,
    ) by {
        if !c.in_check {
            legal::law_noisy_is_tactical(p, m);
        }
        assert(listed(p, c.in_check).contains(m));
        assert(s.l.contains(m));
        let j = choose|j: int| 0 <= j < s.l.len() && s.l[j] == m;
        assert(s.l[j] == m);
    }
}

#[verifier::rlimit(40)]
proof fn lemma_sift(w: World, p: Position, c: Calm, s: Sift, alpha: int, log: Seq<Sip>) -> (out: Seq<
    Sip,
>)
    requires
        sifting(p, c, s, alpha, log),
    ensures
        settled_down(
            tree::sift(w, p, c, s).1,
            p,
            c.in_check,
            c.stand,
            c.ply,
            alpha,
            c.beta,
            c.pv,
            out,
        ),
    decreases s.l.len() - s.i,
{
    if s.i >= s.l.len() {
        lemma_all_done(p, c, s, alpha, log);
        log
    } else {
        lemma_next(p, c, s, alpha, log);
        movegen::lemma_best_upto(s.sc, s.i, s.l.len() as int);
        let s1 = s.picked();
        let (m, x) = (s1.l[s.i], s1.sc[s.i]);
        let s2 = Sift { i: s.i + 1, ..s1 };
        if !c.in_check && x < 0 {
            assert forall|j: int|
                #![trigger s1.l[j]]
                s1.i <= j < s1.l.len() implies !c.in_check && see::see(p, s1.l[j]) < 0 by {
                assert(s1.sc[s.i] >= s1.sc[j]);
            }
            lemma_all_done(p, c, s1, alpha, log);
            log
        } else if !c.in_check && (c.stand + see::gain(p, m) + 150 < s.alpha || x >= 8_388_608
            && see::see(p, m) < 0) {
            assert(sifting(p, c, s2, alpha, log));
            lemma_sift(w, p, c, s2, alpha, log)
        } else {
            let (w1, v) = tree::calm(w, make::after(p, m), -c.beta, -s.alpha, c.ply + 1, c.pv);
            let t = Sip { m, v: -v, w, lo: -c.beta, hi: -s.alpha };
            let more = log.push(t);
            assert(sipped(p, t, c.ply, alpha, c.beta, c.pv));
            assert forall|i: int| 0 <= i < more.len() implies sipped(
                p,
                #[trigger] more[i],
                c.ply,
                alpha,
                c.beta,
                c.pv,
            ) by {
                if i < log.len() {
                    assert(more[i] == log[i]);
                }
            }
            let best = if -v <= s.best {
                s.best
            } else {
                -v
            };
            assert forall|i: int| 0 <= i < more.len() implies (#[trigger] more[i]).v <= best by {
                if i < log.len() {
                    assert(more[i] == log[i]);
                }
            }
            assert(more[log.len() as int].v == -v && more[log.len() as int].m == m);
            if -v > s.best {
                assert(topped(more, -v));
            } else if s.best != c.stand {
                let i = choose|i: int| 0 <= i < log.len() && (#[trigger] log[i]).v == s.best;
                assert(more[i].v == s.best);
            }
            if -v > s.alpha && -v >= c.beta {
                more
            } else {
                let n = if -v <= s.best {
                    s2
                } else if -v <= s.alpha {
                    Sift { best: -v, ..s2 }
                } else {
                    Sift { best: -v, alpha: -v, best_move: m, bound: 3, ..s2 }
                };
                assert forall|j: int| 0 <= j < n.i implies tasted(more, #[trigger] n.l[j])
                    || !c.in_check && pointless(p, n.l[j], c.stand, n.alpha) by {
                    if j == s.i {
                        assert(more[log.len() as int].m == n.l[j]);
                    } else {
                        assert(n.l[j] == s1.l[j]);
                        if tasted(log, s1.l[j]) {
                            let i = choose|i: int|
                                0 <= i < log.len() && (#[trigger] log[i]).m == s1.l[j];
                            assert(more[i].m == s1.l[j]);
                        }
                    }
                }
                assert(sifting(p, c, n, alpha, more));
                lemma_sift(w1, p, c, n, alpha, more)
            }
        }
    }
}

/// A table entry settles a node: it is exact, or a bound that lies outside the
/// window on its own side.
pub open spec fn decides(h: Option<Hit>, alpha: int, beta: int) -> bool {
    h matches Some(x) && (x.bound == 3 || x.bound == 2 && x.score >= beta || x.bound == 1 && x.score
        <= alpha)
}

/// Quiescence. In check every evasion is searched and no move means mate.
/// Otherwise the side to move may stand pat on the corrected evaluation, and the
/// captures and queen promotions that have a point are searched: the score is
/// the best of all these.
pub proof fn law_quiescence_is_worth_its_best_capture(
    w: World,
    p: Position,
    alpha: int,
    beta: int,
    ply: int,
    pv: bool,
) -> (log: Seq<Sip>)
    requires
        w.wf(),
        p.wf(),
        0 <= ply < 127,
        !p.drawn(ply),
        !p.bare(),
        -32_500 <= alpha < beta,
        pv || !decides(w.table.found(p.key, ply), alpha, beta),
    ensures
        ({
            let r = tree::calm(w, p, alpha, beta, ply, pv).1;
            let h = w.table.found(p.key, ply);
            let stand = w.corrected(
                p,
                ply,
                if h is Some {
                    h->0.eval as int
                } else {
                    eval::score(w.brain, p)
                },
            );
            let stuck = movegen::move_list(p, GenKind::All).len() == 0;
            &&& saylaw::in_check(p) && stuck ==> r == ply - 32_000
            &&& saylaw::in_check(p) && !stuck ==> settled_down(
                r,
                p,
                true,
                -32_500,
                ply,
                alpha,
                beta,
                pv,
                log,
            )
            &&& !saylaw::in_check(p) && stand >= beta ==> r == stand
            &&& !saylaw::in_check(p) && stand < beta ==> settled_down(
                r,
                p,
                false,
                stand,
                ply,
                alpha,
                beta,
                pv,
                log,
            )
        }),
{
    reveal(tree::menu);
    reveal(World::ticked);
    reveal(World::counted);
    reveal(World::assessed);
    reveal(World::corrected);
    reveal(World::ranks);
    saylaw::lemma_in_check(p);
    let w1 = w.ticked().counted(ply);
    let h = w1.table.found(p.key, ply);
    let in_check = p.checkers != 0;
    let raw = if in_check {
        -32_500
    } else if h is Some {
        h->0.eval as int
    } else {
        eval::score(w1.brain, p)
    };
    let w2 = if in_check || h is Some {
        w1
    } else {
        w1.assessed(p)
    };
    let stand = if in_check {
        -32_500
    } else {
        w2.corrected(p, ply, raw)
    };
    let none = Seq::<Sip>::empty();
    if !in_check && stand >= beta {
        none
    } else {
        let l = listed(p, in_check);
        let tt = if h is Some {
            h->0.mv
        } else {
            Move(0)
        };
        let c = Calm { beta, ply, pv, in_check, raw, stand };
        let s = Sift {
            l,
            sc: w2.ranks(
                p,
                l,
                tt,
                ply,
                if in_check {
                    -20
                } else {
                    0
                },
            ),
            i: 0,
            alpha: if in_check {
                alpha
            } else if alpha < stand {
                stand
            } else {
                alpha
            },
            best: stand,
            best_move: Move(0),
            bound: 1,
        };
        assert forall|j: int| 0 <= j < s.l.len() implies l.contains(#[trigger] s.l[j]) by {}
        assert forall|j: int|
            #![trigger s.sc[j]]
            0 <= j < s.l.len() && !in_check && s.sc[j] < 0 implies see::see(p, s.l[j]) < 0 by {
            let m = s.l[j];
            assert(l.contains(m));
            legal::law_noisy_is_tactical(p, m);
            lemma_loses(w, w2, p, tt, ply, m);
        }
        assert(sifting(p, c, s, alpha, none));
        if l.len() == 0 {
            lemma_all_done(p, c, s, alpha, none);
            none
        } else {
            lemma_sift(w2, p, c, s, alpha, none)
        }
    }
}

proof fn lemma_loses(w: World, u: World, p: Position, tt: Move, ply: int, m: Move)
    requires
        w.wf(),
        p.board_ok(),
        p.stm < 2,
        0 <= ply < 128,
        u.capt_hist == w.capt_hist,
        rules::tactical(m),
        (u.rank(p, m, tt, ply, 0) as i32) < 0,
    ensures
        see::see(p, m) < 0,
{
    if m != tt && m.k() < 8 {
        searchlaw::law_sign_tells_the_exchange(w, p, tt, ply, m);
        learn::lemma_indices(p, m, 0, 0);
        assert(u.rank(p, m, tt, ply, 0) == w.rank(p, m, tt, ply, 0));
        searchlaw::lemma_values(see::taken(p, m));
    }
}

// ---------------------------------------------------------------------------
// What is known of a node
// ---------------------------------------------------------------------------

/// What a node is told is what it was asked, and what it knows is true: whether
/// its king is attacked, what the table says, and the evaluation, which is the
/// table's or a fresh one, corrected. The table's score is a better estimate only
/// from the side that it bounds.
pub proof fn law_frames_are_true(
    w: World,
    p: Position,
    depth: int,
    alpha: int,
    beta: int,
    ply: int,
    cut: bool,
    pv: bool,
    ex: Move,
    h: Option<Hit>,
)
    requires
        p.wf(),
        0 <= depth <= 1000,
        -32_500 <= alpha <= 32_500,
        -32_500 <= beta <= 32_500,
        0 <= ply < 128,
        -32_000 <= eval::score(w.brain, p) <= 32_000,
    ensures
        ({
            let f = tree::framed(w, p, depth, alpha, beta, ply, cut, pv, ex, h).1;
            &&& f.depth == depth && f.alpha == alpha && f.beta == beta && f.ply == ply
            &&& f.cut == cut && f.pv == pv && f.ex == ex
            &&& f.in_check == saylaw::in_check(p)
            &&& h is None ==> f.tt_move == Move(0) && f.tt_depth == -1 && f.tt_bound == 0
            &&& h matches Some(x) ==> f.tt_move == x.mv && f.tt_score == x.score && f.tt_depth
                == x.depth && f.tt_bound == x.bound
            &&& saylaw::in_check(p) ==> f.eval == -32_500 && !f.improving
            &&& !saylaw::in_check(p) ==> {
                &&& h is None ==> f.raw == eval::score(w.brain, p) && f.eval == f.corrected
                &&& f.corrected == w.corrected(p, ply, f.raw as int)
                &&& h matches Some(x) ==> {
                    &&& -31_872 < x.eval < 31_872 ==> f.raw == x.eval
                    &&& f.eval == f.corrected || f.eval == x.score && -31_872 < x.score < 31_872
                    &&& x.bound == 2 ==> f.eval >= f.corrected
                    &&& x.bound == 1 ==> f.eval <= f.corrected
                    &&& x.bound == 3 && -31_872 < x.score < 31_872 ==> f.eval == x.score
                }
            }
        }),
{
    reveal(World::assessed);
    reveal(World::corrected);
    saylaw::lemma_in_check(p);
}

/// A node improves if its side is better off than at its last turn but one that
/// was not a check; the evaluation that is kept for that is the corrected one.
pub proof fn law_improving_means_better_off(w: World, ply: int, corrected: int, higher: int)
    requires
        corrected <= higher,
    ensures
        tree::rising(w, ply, false, corrected) ==> tree::rising(w, ply, false, higher),
        !tree::rising(w, ply, true, corrected),
        ply >= 2 && w.stack[ply - 2].eval != -32_500 ==> (tree::rising(w, ply, false, corrected)
            <==> corrected > w.stack[ply - 2].eval),
        ply >= 4 && w.stack[ply - 2].eval == -32_500 && w.stack[ply - 4].eval != -32_500 ==> (
        tree::rising(w, ply, false, corrected) <==> corrected > w.stack[ply - 4].eval),
{
}

// ---------------------------------------------------------------------------
// Pruning
// ---------------------------------------------------------------------------

/// A node is only given up as a whole where the window is closed, its king is
/// safe, no move is left out and no mate is at stake; and then its score lies
/// outside the window: the node is too good or too bad to be played.
pub proof fn law_shortcuts_leave_the_window(w: World, p: Position, f: Frame)
    requires
        f.depth >= 1,
        f.alpha < f.beta,
    ensures
        tree::shortcut(w, p, f).1 matches Some(v) ==> {
            &&& !f.pv
            &&& !f.in_check
            &&& f.ex == Move(0)
            &&& -31_872 < f.beta < 31_872
            &&& v >= f.beta || v < f.alpha
        },
{
    let (w1, r1) = tree::razor(w, p, f);
    let (w2, r2) = tree::pass(w1, p, f);
    if f.depth < 9 {
        let d = f.depth as int;
        assert(d >= 1 ==> 75 * d >= 75);
    }
    let l = tree::menu(p, GenKind::Noisy);
    lemma_prob(w2, p, f, l, w2.ranks(p, l, f.tt_move, f.ply as int, -20), 0);
}

proof fn lemma_prob(w: World, p: Position, f: Frame, l: Seq<Move>, sc: Seq<i32>, i: int)
    requires
        0 <= i,
    ensures
        tree::prob_from(w, p, f, l, sc, i).1 matches Some(v) ==> v >= f.beta,
    decreases l.len() - i,
{
    if i < l.len() && f.ply < 127 {
        movegen::lemma_best_upto(sc, i, l.len() as int);
        let b = movegen::best_upto(sc, i, l.len() as int);
        let (l1, sc1) = (movegen::swapped(l, i, b), movegen::swapped(sc, i, b));
        let m = l1[i];
        if m == f.ex || see::see(p, m) < tree::bar(f) - f.corrected {
            lemma_prob(w, p, f, l1, sc1, i + 1);
        } else {
            let q = make::after(p, m);
            let w1 = w.stepped(f.ply as int, m, learn::step_of(p, m));
            let (w2, x) = tree::calm(w1, q, -tree::bar(f), 1 - tree::bar(f), f.ply + 1, false);
            let (w3, v) = if -x >= tree::bar(f) {
                tree::nega(
                    w2,
                    q,
                    f.depth - 4,
                    -tree::bar(f),
                    1 - tree::bar(f),
                    f.ply + 1,
                    !f.cut,
                    false,
                    Move(0),
                )
            } else {
                (w2, x)
            };
            if -v < tree::bar(f) {
                lemma_prob(w3, p, f, l1, sc1, i + 1);
            }
        }
    }
}

/// A free move is only given away by a side with a piece besides its king and
/// pawns, never twice in a row, and only where the evaluation is good already.
pub proof fn law_free_moves_are_safe(w: World, p: Position, f: Frame)
    requires
        f.ply > 0,
    ensures
        tree::passes(w, p, f) ==> {
            &&& f.eval >= f.beta
            &&& w.stack[f.ply - 1].mv != Move(0)
            &&& p.color@[p.stm as int] & !(p.piece@[0] | p.piece@[5]) != 0
        },
        tree::pass(w, p, f).1 is Some ==> tree::passes(w, p, f),
        !tree::passes(w, p, f) ==> tree::pass(w, p, f) == (w, None::<int>),
{
}

/// A move is only dropped for a reason: it loses material, or it is quiet and
/// comes late, or its history is bad, or the evaluation is below the window.
/// Nothing is dropped at the root, in check, or before some move is better than
/// being mated, and no capture ever stops the others.
pub proof fn law_moves_are_dropped_for_a_reason(
    w: World,
    p: Position,
    f: Frame,
    alpha: int,
    best: int,
    played: int,
    m: Move,
)
    requires
        f.depth >= 1,
    ensures
        ({
            let x = tree::fate(w, p, f, alpha, best, played, m);
            let quiet = (m.k() / 4) % 2 == 0;
            &&& x != Fate::Keep ==> {
                &&& f.ply > 0
                &&& !f.in_check
                &&& best > -31_872
                &&& quiet || see::see(p, m) < -95
                &&& see::see(p, m) < 0 || {
                    ||| 2 * played >= 2 + f.depth * f.depth
                    ||| f.eval < alpha
                    ||| w.memory(p, m, f.ply as int) < -3200
                }
            }
            &&& x == Fate::SkipQuiets ==> quiet
        }),
{
    let d = f.depth as int;
    assert(d * d >= 1) by (nonlinear_arith)
        requires
            d >= 1,
    ;
    let e = tree::late_depth(w, f, played);
    assert(e >= 0 ==> -25 * e * e <= 0) by (nonlinear_arith);
}

/// What improves gives its quiet moves at least as much room.
pub proof fn law_improving_nodes_look_further(f: Frame, g: Frame)
    requires
        f.depth >= 1,
        g.depth >= f.depth,
        g.improving || !f.improving,
    ensures
        tree::quiet_cap(f) <= tree::quiet_cap(g),
        tree::quiet_cap(f) >= 2,
{
    let (d, e) = (f.depth as int, g.depth as int);
    assert(1 <= d * d <= e * e) by (nonlinear_arith)
        requires
            1 <= d <= e,
    ;
}

/// A move is extended by two plies at most, never at the root and never past the
/// tether; a node is cut by its own table move only above the window.
pub proof fn law_extensions_are_tethered(w: World, p: Position, f: Frame, m: Move)
    ensures
        match tree::reach(w, p, f, m).1 {
            Reach::By(x) => {
                &&& -2 <= x <= 2
                &&& x != 0 ==> 0 < f.ply < tree::tether(w)
                &&& x > 1 ==> !f.pv && m == f.tt_move
                &&& x < 0 ==> m == f.tt_move && f.tt_score >= f.beta
            },
            Reach::Cut(v) => f.ply > 0 && m == f.tt_move && v >= f.beta,
        },
        0 < f.ply < tree::tether(w) && f.in_check && m != f.tt_move ==> tree::reach(w, p, f, m)
            == (w, Reach::By(1)),
        tree::tether(w) <= 128,
        0 <= w.limits.depth < 64 ==> tree::tether(w) == 2 * w.limits.depth,
{
}

// ---------------------------------------------------------------------------
// Reductions
// ---------------------------------------------------------------------------

/// Two frames that differ in nothing a reduction looks at but the flags.
pub open spec fn same_place(f: Frame, g: Frame) -> bool {
    f.depth == g.depth && f.ply == g.ply
}

/// A move is reduced more where the node is expected to fail high and where the
/// table knows no move; it is reduced less with an open window and where things
/// improve.
pub proof fn law_reductions_follow_the_node(
    w: World,
    p: Position,
    f: Frame,
    g: Frame,
    played: int,
    m: Move,
    d: int,
)
    requires
        same_place(f, g),
        f.pv || !g.pv,
        f.improving || !g.improving,
        g.cut || !f.cut,
        g.tt_move == Move(0) || f.tt_move != Move(0),
    ensures
        tree::reduction(w, p, f, played, m, d) <= tree::reduction(w, p, g, played, m, d),
{
}

/// The first moves are not reduced at all, and neither is the last ply.
pub proof fn law_first_moves_are_not_reduced(
    w: World,
    p: Position,
    f: Frame,
    played: int,
    m: Move,
    d: int,
)
    requires
        played < 2 || f.ply == 0 && played < 3 || f.depth < 2 || d <= 1,
    ensures
        tree::reduction(w, p, f, played, m, d) == 0,
{
}

/// Of two worlds the one with the better memory of a move reduces it less.
pub proof fn law_good_memories_are_reduced_less(
    a: World,
    b: World,
    p: Position,
    f: Frame,
    played: int,
    m: Move,
    d: int,
)
    requires
        a.lmr == b.lmr,
        a.memory(p, m, f.ply as int) <= b.memory(p, m, f.ply as int),
    ensures
        tree::reduction(a, p, f, played, m, d) >= tree::reduction(b, p, f, played, m, d),
{
}

// ---------------------------------------------------------------------------
// The table
// ---------------------------------------------------------------------------

/// An entry of the table decides a node only where the window is closed, and
/// only if it was searched deep enough, bounds the right side, and no move is
/// left out; its score is then the node's.
pub proof fn law_the_table_decides_closed_windows(
    w: World,
    p: Position,
    depth: int,
    alpha: int,
    beta: int,
    ply: int,
    cut: bool,
)
    requires
        depth > 0,
        0 < ply < 127,
        !p.drawn(ply),
        !p.bare(),
        ply - 32_000 <= alpha < beta <= 31_999 - ply,
        w.table.found(p.key, ply) matches Some(x) && x.depth >= depth,
        decides(w.table.found(p.key, ply), alpha, beta),
    ensures
        tree::nega(w, p, depth, alpha, beta, ply, cut, false, Move(0)).1 == (w.table.found(
            p.key,
            ply,
        )->0).score,
{
    reveal(World::ticked);
    reveal(World::counted);
    reveal(World::opened);
    reveal(World::forgot);
}

/// A mate can be no nearer than the ply it is at: a window that asks for a nearer
/// one is answered at once, with the window's own edge.
pub proof fn law_mates_are_no_nearer_than_the_ply(
    w: World,
    p: Position,
    depth: int,
    alpha: int,
    beta: int,
    ply: int,
    cut: bool,
    pv: bool,
    ex: Move,
)
    requires
        depth > 0,
        0 < ply < 127,
        !p.drawn(ply),
        !p.bare(),
        alpha >= 31_999 - ply,
    ensures
        tree::nega(w, p, depth, alpha, beta, ply, cut, pv, ex).1 == alpha,
{
}

} // verus!
