//! The node count of a search only grows.
//!
//! A search that its node budget cut short would therefore have gone over it.

use vstd::prelude::*;
use crate::clock;
use crate::eval;
use crate::geom;
use crate::learn;
use crate::make;
use crate::mind;
use crate::mind::World;
use crate::movegen;
use crate::movegen::GenKind;
use crate::moves::Move;
use crate::pos::Position;
use crate::see;
use crate::tree;
use crate::tree::{Calm, Fate, Frame, Reach, Run, Sift};

verus! {

/// `b` has visited as many nodes as `a`, if not more.
pub open spec fn on(a: World, b: World) -> bool {
    b.threads == a.threads && b.nodes >= a.nodes
}

/// `b` has visited exactly the nodes that `a` has.
pub open spec fn level(a: World, b: World) -> bool {
    b.threads == a.threads && b.nodes == a.nodes
}

// ---------------------------------------------------------------------------
// What does not count
// ---------------------------------------------------------------------------

broadcast proof fn lemma_ticked(w: World)
    ensures
        level(w, #[trigger] w.ticked()),
{
    reveal(World::ticked);
}

broadcast proof fn lemma_counted(w: World, ply: int)
    requires
        w.threads <= 1,
    ensures
        (#[trigger] w.counted(ply)).nodes == w.nodes + 1,
        w.counted(ply).threads == w.threads,
{
    reveal(World::counted);
}

broadcast proof fn lemma_opened(w: World, ply: int)
    ensures
        level(w, #[trigger] w.opened(ply)),
{
    reveal(World::opened);
}

broadcast proof fn lemma_forgot(w: World, ply: int)
    ensures
        level(w, #[trigger] w.forgot(ply)),
{
    reveal(World::forgot);
}

broadcast proof fn lemma_marked(w: World, ply: int, eval: int)
    ensures
        level(w, #[trigger] w.marked(ply, eval)),
{
    reveal(World::marked);
}

broadcast proof fn lemma_stepped(w: World, ply: int, m: Move, step: int)
    ensures
        level(w, #[trigger] w.stepped(ply, m, step)),
{
    reveal(World::stepped);
}

broadcast proof fn lemma_lined(w: World, ply: int, m: Move)
    ensures
        level(w, #[trigger] w.lined(ply, m)),
{
    reveal(World::lined);
}

broadcast proof fn lemma_assessed(w: World, p: Position)
    ensures
        level(w, #[trigger] w.assessed(p)),
{
    reveal(World::assessed);
}

broadcast proof fn lemma_noted(
    w: World,
    p: Position,
    m: Move,
    score: int,
    eval: int,
    depth: int,
    bound: int,
    ply: int,
)
    ensures
        level(w, #[trigger] w.noted(p, m, score, eval, depth, bound, ply)),
{
    reveal(World::noted);
}

broadcast proof fn lemma_taught(w: World, p: Position, ply: int, diff: int, depth: int)
    ensures
        level(w, #[trigger] w.taught(p, ply, diff, depth)),
{
    reveal(World::taught);
}

broadcast proof fn lemma_rewarded(w: World, p: Position, m: Move, ply: int, bonus: int)
    ensures
        level(w, #[trigger] w.rewarded(p, m, ply, bonus)),
{
    reveal(World::rewarded);
}

proof fn lemma_quiets(w: World, p: Position, l: Seq<Move>, best: Move, ply: int, malus: int, n: nat)
    ensures
        level(w, w.quiets_punished(p, l, best, ply, malus, n)),
    decreases n,
{
    if n > 0 {
        lemma_quiets(w, p, l, best, ply, malus, (n - 1) as nat);
        let v = w.quiets_punished(p, l, best, ply, malus, (n - 1) as nat);
        lemma_rewarded(v, p, l[n - 1], ply, malus);
    }
}

proof fn lemma_captures(w: World, p: Position, l: Seq<Move>, best: Move, malus: int, n: nat)
    ensures
        level(w, w.captures_punished(p, l, best, malus, n)),
    decreases n,
{
    if n > 0 {
        lemma_captures(w, p, l, best, malus, (n - 1) as nat);
    }
}

broadcast proof fn lemma_credited(
    w: World,
    p: Position,
    best: Move,
    ply: int,
    depth: int,
    quiets: Seq<Move>,
    noisy: Seq<Move>,
)
    ensures
        level(w, #[trigger] w.credited(p, best, ply, depth, quiets, noisy)),
{
    reveal(World::credited);
    let bonus = mind::clamp(155 * depth - 80, 0, 1200);
    let v = if mind::is_noisy(best) {
        w.capt_rewarded(p, best, bonus)
    } else {
        lemma_rewarded(w, p, best, ply, bonus);
        let u = w.rewarded(p, best, ply, bonus).killed(ply, best).countered(ply, best);
        lemma_quiets(u, p, quiets, best, ply, -bonus, quiets.len());
        u.quiets_punished(p, quiets, best, ply, -bonus, quiets.len())
    };
    lemma_captures(v, p, noisy, best, -bonus, noisy.len());
}

broadcast group group_level {
    lemma_ticked,
    lemma_counted,
    lemma_opened,
    lemma_forgot,
    lemma_marked,
    lemma_stepped,
    lemma_lined,
    lemma_assessed,
    lemma_noted,
    lemma_taught,
    lemma_rewarded,
    lemma_credited,
}

// ---------------------------------------------------------------------------
// What counts
// ---------------------------------------------------------------------------

/// A quiescence search visits at least one node.
pub proof fn lemma_calm(w: World, p: Position, alpha: int, beta: int, ply: int, pv: bool)
    requires
        w.threads <= 1,
    ensures
        on(w, tree::calm(w, p, alpha, beta, ply, pv).0),
        tree::calm(w, p, alpha, beta, ply, pv).0.nodes > w.nodes,
    decreases 128 - ply, 0int, 2int, 0int,
{
    broadcast use group_level;

    let w1 = w.ticked().counted(ply);
    let h = w1.table.found(p.key, ply);
    let in_check = p.checkers != 0;
    let raw = if in_check {
        -32_500
    } else if h is Some {
        h->0.eval as int
    } else {
        eval::score(w1.brain, p)
    };
    let w2 = if in_check || h is Some {
        w1
    } else {
        w1.assessed(p)
    };
    let stand = if in_check {
        -32_500
    } else {
        w2.corrected(p, ply, raw)
    };
    let l = tree::menu(
        p,
        if in_check {
            GenKind::All
        } else {
            GenKind::Noisy
        },
    );
    let tt_move = if h is Some {
        h->0.mv
    } else {
        Move(0)
    };
    let sc = w2.ranks(
        p,
        l,
        tt_move,
        ply,
        if in_check {
            -20
        } else {
            0
        },
    );
    lemma_sift(
        w2,
        p,
        Calm { beta, ply, pv, in_check, raw, stand },
        Sift {
            l,
            sc,
            i: 0,
            alpha: if in_check {
                alpha
            } else {
                clock::max(alpha, stand)
            },
            best: stand,
            best_move: Move(0),
            bound: 1,
        },
    );
}

/// The search of one move of a quiescence node is part of the search of the
/// node.
pub proof fn lemma_sift(w: World, p: Position, c: Calm, s: Sift)
    requires
        w.threads <= 1,
    ensures
        on(w, tree::sift(w, p, c, s).0),
        c.sifts(p, s) ==> on(
            tree::calm(
                w,
                make::after(p, s.picked().l[s.i]),
                -c.beta,
                -s.alpha,
                c.ply + 1,
                c.pv,
            ).0,
            tree::sift(w, p, c, s).0,
        ),
    decreases 128 - c.ply, 0int, 1int, s.l.len() - s.i,
{
    broadcast use group_level;

    if 0 <= s.i < s.l.len() && c.ply < 127 {
        movegen::lemma_best_upto(s.sc, s.i, s.l.len() as int);
        let s1 = s.picked();
        let m = s1.l[s.i];
        let s2 = Sift { i: s.i + 1, ..s1 };
        let q = make::after(p, m);
        lemma_sift(w, p, c, s2);
        lemma_calm(w, q, -c.beta, -s.alpha, c.ply + 1, c.pv);
        let (w1, v) = tree::calm(w, q, -c.beta, -s.alpha, c.ply + 1, c.pv);
        lemma_sift(w1, p, c, s2);
        lemma_sift(w1, p, c, Sift { best: -v, ..s2 });
        lemma_sift(w1, p, c, Sift { best: -v, alpha: -v, best_move: m, bound: 3, ..s2 });
    }
}

impl Calm {
    /// The next move of a quiescence node is searched.
    pub open spec fn sifts(self, p: Position, s: Sift) -> bool {
        let (m, x) = (s.picked().l[s.i], s.picked().sc[s.i]);
        &&& 0 <= s.i < s.l.len()
        &&& self.ply < 127
        &&& self.in_check || x >= 0 && self.stand + see::gain(p, m) + 150 >= s.alpha && (x
            < 8_388_608 || see::see(p, m) >= 0)
    }
}

/// A search of a node visits at least that node.
pub proof fn lemma_nega(
    w: World,
    p: Position,
    depth: int,
    alpha: int,
    beta: int,
    ply: int,
    cut: bool,
    pv: bool,
    ex: Move,
)
    requires
        w.threads <= 1,
    ensures
        on(w, tree::nega(w, p, depth, alpha, beta, ply, cut, pv, ex).0),
        tree::nega(w, p, depth, alpha, beta, ply, cut, pv, ex).0.nodes > w.nodes,
    decreases
            128 - ply,
            if ex == Move(0) {
                1int
            } else {
                0
            },
            9int,
            0int,
{
    broadcast use group_level;

    if depth <= 0 || ply < 0 {
        lemma_calm(w, p, alpha, beta, ply, pv);
    } else if ply < 127 {
        let a = if ply == 0 {
            alpha
        } else {
            clock::max(alpha, ply - 32_000)
        };
        let b = if ply == 0 {
            beta
        } else {
            clock::min(beta, 31_999 - ply)
        };
        let w2 = w.ticked().opened(ply).counted(ply).forgot(ply);
        let h = if ex == Move(0) {
            w2.table.found(p.key, ply)
        } else {
            None
        };
        let (w3, f) = tree::framed(w2, p, depth, a, b, ply, cut, pv, ex, h);
        lemma_node(w3, p, f);
    }
}

/// The whole-node pruning is part of the search of a node.
pub proof fn lemma_node(w: World, p: Position, f: Frame)
    requires
        w.threads <= 1,
    ensures
        on(w, tree::node(w, p, f).0),
        on(tree::shortcut(w, p, f).0, tree::node(w, p, f).0),
    decreases 128 - f.ply, f.whole(), 8int, 0int,
{
    lemma_shortcut(w, p, f);
    lemma_tour(tree::shortcut(w, p, f).0, p, tree::eased(f));
}

/// Each kind of pruning is part of the pruning of a node.
pub proof fn lemma_shortcut(w: World, p: Position, f: Frame)
    requires
        w.threads <= 1,
    ensures
        on(w, tree::shortcut(w, p, f).0),
        prunes(f) ==> on(tree::razor(w, p, f).0, tree::shortcut(w, p, f).0),
        prunes(f) && tree::razor(w, p, f).1 is None ==> on(
            tree::pass(tree::razor(w, p, f).0, p, f).0,
            tree::shortcut(w, p, f).0,
        ),
    decreases 128 - f.ply, f.whole(), 7int, 0int,
{
    let w1 = tree::razor(w, p, f).0;
    let w2 = tree::pass(w1, p, f).0;
    lemma_razor(w, p, f);
    lemma_pass(w1, p, f);
    lemma_prob(w2, p, f);
}

/// More than the static evaluation is asked before a node is pruned.
pub open spec fn prunes(f: Frame) -> bool {
    &&& !(f.pv || f.in_check || f.ex != Move(0) || geom::abs(f.beta as int) >= 31_872)
    &&& !(f.depth < 9 && f.eval - mind::margin_of(75) * f.depth + (if f.improving {
        mind::margin_of(60)
    } else {
        0
    }) >= f.beta)
}

proof fn lemma_razor(w: World, p: Position, f: Frame)
    requires
        w.threads <= 1,
    ensures
        on(w, tree::razor(w, p, f).0),
    decreases 128 - f.ply, f.whole(), 6int, 0int,
{
    lemma_calm(w, p, f.alpha - 1, f.alpha as int, f.ply as int, false);
}

proof fn lemma_pass(w: World, p: Position, f: Frame)
    requires
        w.threads <= 1,
    ensures
        on(w, tree::pass(w, p, f).0),
    decreases 128 - f.ply, f.whole(), 6int, 0int,
{
    broadcast use group_level;

    if f.ply < 127 {
        let r = 4 + f.depth / 3 + clock::min(
            eval::quot(f.eval - f.beta, mind::margin_of(200)),
            3,
        );
        lemma_nega(
            w.stepped(f.ply as int, Move(0), 0),
            make::after_null(p),
            f.depth - r,
            -f.beta,
            1 - f.beta,
            f.ply + 1,
            !f.cut,
            false,
            Move(0),
        );
    }
}

proof fn lemma_prob(w: World, p: Position, f: Frame)
    requires
        w.threads <= 1,
    ensures
        on(w, tree::prob(w, p, f).0),
    decreases 128 - f.ply, f.whole(), 6int, 0int,
{
    let l = tree::menu(p, GenKind::Noisy);
    lemma_prob_from(w, p, f, l, w.ranks(p, l, f.tt_move, f.ply as int, -20), 0);
}

/// The capture that a probable cut tries next.
pub open spec fn probed(l: Seq<Move>, sc: Seq<i32>, i: int) -> Move {
    movegen::swapped(l, i, movegen::best_upto(sc, i, l.len() as int))[i]
}

/// Both searches of a capture are part of the search for a probable cut.
pub proof fn lemma_prob_from(w: World, p: Position, f: Frame, l: Seq<Move>, sc: Seq<i32>, i: int)
    requires
        w.threads <= 1,
    ensures
        on(w, tree::prob_from(w, p, f, l, sc, i).0),
        0 <= i < l.len() && f.ply < 127 && probed(l, sc, i) != f.ex && see::see(
            p,
            probed(l, sc, i),
        ) >= tree::bar(f) - f.corrected ==> {
            let m = probed(l, sc, i);
            let q = make::after(p, m);
            let bar = tree::bar(f);
            let w1 = w.stepped(f.ply as int, m, learn::step_of(p, m));
            let (w2, x) = tree::calm(w1, q, -bar, 1 - bar, f.ply + 1, false);
            let w3 = tree::nega(
                w2,
                q,
                f.depth - 4,
                -bar,
                1 - bar,
                f.ply + 1,
                !f.cut,
                false,
                Move(0),
            ).0;
            let end = tree::prob_from(w, p, f, l, sc, i).0;
            on(w2, end) && (-x >= bar ==> on(w3, end))
        },
    decreases 128 - f.ply, f.whole(), 5int, l.len() - i,
{
    broadcast use group_level;

    if 0 <= i < l.len() && f.ply < 127 {
        movegen::lemma_best_upto(sc, i, l.len() as int);
        let b = movegen::best_upto(sc, i, l.len() as int);
        let (l1, sc1) = (movegen::swapped(l, i, b), movegen::swapped(sc, i, b));
        let m = l1[i];
        let q = make::after(p, m);
        let bar = tree::bar(f);
        let w1 = w.stepped(f.ply as int, m, learn::step_of(p, m));
        let w2 = tree::calm(w1, q, -bar, 1 - bar, f.ply + 1, false).0;
        lemma_prob_from(w, p, f, l1, sc1, i + 1);
        lemma_calm(w1, q, -bar, 1 - bar, f.ply + 1, false);
        lemma_nega(w2, q, f.depth - 4, -bar, 1 - bar, f.ply + 1, !f.cut, false, Move(0));
        let w3 = tree::nega(
            w2,
            q,
            f.depth - 4,
            -bar,
            1 - bar,
            f.ply + 1,
            !f.cut,
            false,
            Move(0),
        ).0;
        lemma_prob_from(w2, p, f, l1, sc1, i + 1);
        lemma_prob_from(w3, p, f, l1, sc1, i + 1);
    }
}

proof fn lemma_tour(w: World, p: Position, f: Frame)
    requires
        w.threads <= 1,
    ensures
        on(w, tree::tour(w, p, f).0),
    decreases 128 - f.ply, f.whole(), 6int, 0int,
{
    let l = tree::menu(p, GenKind::All);
    lemma_walk(
        w,
        p,
        f,
        Run {
            l,
            sc: w.ranks(p, l, f.tt_move, f.ply as int, -20),
            i: 0,
            alpha: f.alpha as int,
            best: -32_500,
            best_move: Move(0),
            bound: 1,
            quiets: Seq::empty(),
            takes: Seq::empty(),
            played: 0,
            skip: false,
        },
    );
}

proof fn lemma_reach(w: World, p: Position, f: Frame, m: Move)
    requires
        w.threads <= 1,
    ensures
        on(w, tree::reach(w, p, f, m).0),
    decreases 128 - f.ply, f.whole(), 3int, 0int,
{
    if tree::alone(f, m) {
        let s = tree::below(f);
        lemma_nega(w, p, (f.depth - 1) / 2, s - 1, s, f.ply as int, f.cut, false, m);
    }
}

/// Every search of a move is part of the search of the move.
pub proof fn lemma_attempt(
    w: World,
    p: Position,
    f: Frame,
    alpha: int,
    played: int,
    m: Move,
    ext: int,
)
    requires
        w.threads <= 1,
    ensures
        on(w, tree::attempt(w, p, f, alpha, played, m, ext).0),
        f.ply < 127 && played != 0 ==> {
            let d = f.depth - 1 + ext;
            let q = make::after(p, m);
            let w1 = w.stepped(f.ply as int, m, learn::step_of(p, m));
            let rd = d - tree::reduction(w, p, f, played, m, d) / 1024;
            let (w2, v2) = tree::nega(
                w1,
                q,
                rd,
                -alpha - 1,
                -alpha,
                f.ply + 1,
                true,
                false,
                Move(0),
            );
            let w3 = tree::nega(
                w2,
                q,
                d,
                -alpha - 1,
                -alpha,
                f.ply + 1,
                !f.cut,
                false,
                Move(0),
            ).0;
            let end = tree::attempt(w, p, f, alpha, played, m, ext).0;
            on(w2, end) && (-v2 > alpha && rd < d ==> on(w3, end))
        },
    decreases 128 - f.ply, f.whole(), 3int, 0int,
{
    broadcast use group_level;

    if f.ply < 127 {
        let d = f.depth - 1 + ext;
        let q = make::after(p, m);
        let w1 = w.stepped(f.ply as int, m, learn::step_of(p, m));
        let ply = f.ply + 1;
        let beta = f.beta as int;
        if played == 0 {
            lemma_nega(w1, q, d, -beta, -alpha, ply, false, f.pv, Move(0));
        } else {
            let rd = d - tree::reduction(w, p, f, played, m, d) / 1024;
            lemma_nega(w1, q, rd, -alpha - 1, -alpha, ply, true, false, Move(0));
            let w2 = tree::nega(w1, q, rd, -alpha - 1, -alpha, ply, true, false, Move(0)).0;
            lemma_nega(w2, q, d, -alpha - 1, -alpha, ply, !f.cut, false, Move(0));
            let w3 = tree::nega(w2, q, d, -alpha - 1, -alpha, ply, !f.cut, false, Move(0)).0;
            lemma_nega(w2, q, d, -beta, -alpha, ply, false, true, Move(0));
            lemma_nega(w3, q, d, -beta, -alpha, ply, false, true, Move(0));
        }
    }
}

/// The next move of a node is searched.
pub open spec fn walks(w: World, p: Position, f: Frame, s: Run) -> bool {
    let m = s.picked().l[s.i];
    &&& 0 <= s.i < s.l.len()
    &&& m != f.ex
    &&& !s.skip || mind::is_noisy(m) || m.pro()
    &&& tree::fate(w, p, f, s.alpha, s.best, s.played, m) == Fate::Keep
}

/// How far a move reaches, and its search, are part of the search of the moves.
pub proof fn lemma_walk(w: World, p: Position, f: Frame, s: Run)
    requires
        w.threads <= 1,
    ensures
        on(w, tree::walk(w, p, f, s).0),
        walks(w, p, f, s) ==> {
            let m = s.picked().l[s.i];
            let (w1, e) = tree::reach(w, p, f, m);
            let end = tree::walk(w, p, f, s).0;
            on(w1, end) && (e matches Reach::By(x) ==> on(
                tree::attempt(w1, p, f, s.alpha, s.played, m, x as int).0,
                end,
            ))
        },
    decreases 128 - f.ply, f.whole(), 4int, s.l.len() - s.i,
{
    broadcast use group_level;

    if 0 <= s.i < s.l.len() {
        movegen::lemma_best_upto(s.sc, s.i, s.l.len() as int);
        let s1 = s.picked();
        let m = s1.l[s.i];
        let s2 = Run { i: s.i + 1, ..s1 };
        lemma_walk(w, p, f, s2);
        lemma_walk(w, p, f, Run { skip: true, ..s2 });
        lemma_reach(w, p, f, m);
        let (w1, e) = tree::reach(w, p, f, m);
        if let Reach::By(x) = e {
            lemma_attempt(w1, p, f, s.alpha, s.played, m, x as int);
            let (w2, v) = tree::attempt(w1, p, f, s.alpha, s.played, m, x as int);
            let w3 = if f.pv {
                w2.lined(f.ply as int, m)
            } else {
                w2
            };
            lemma_walk(w2, p, f, s2.tried(m));
            lemma_walk(w2, p, f, Run { best: v, ..s2.tried(m) });
            lemma_walk(
                w3,
                p,
                f,
                Run { best: v, alpha: v, best_move: m, bound: 3, ..s2.tried(m) },
            );
        }
    }
}

} // verus!
