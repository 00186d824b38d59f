//! What the score of a node is: the best that any of its moves can get.
//!
//! At the root no move is left out, so the best move is the best of all legal
//! ones, as far as the searches of the positions after them tell.

use vstd::prelude::*;
use crate::bits;
use crate::clock;
use crate::legal;
use crate::lines;
use crate::make;
use crate::mind::{Searcher, World};
use crate::movegen;
use crate::movegen::GenKind;
use crate::moves::Move;
use crate::pos::Position;
use crate::rules;
use crate::see;
use crate::think;
use crate::tree;
use crate::tree::{Fate, Frame, Reach, Run};
use crate::tt::Table;
use crate::twin;

verus! {

// ---------------------------------------------------------------------------
// A record of what was searched
// ---------------------------------------------------------------------------

/// A move that was searched: its score, and the search of the position after it
/// that gave it.
pub struct Try {
    pub m: Move,
    pub v: int,
    /// Plies searched deeper than usual.
    pub ext: int,
    /// What was known, how deep the search was, and its window.
    pub w: World,
    pub depth: int,
    pub lo: int,
    pub hi: int,
    pub cut: bool,
    pub pv: bool,
}

impl Try {
    /// The score of the move is what its opponent gets out of the position after
    /// it, seen from the other side.
    pub open spec fn honest(self, p: Position, ply: int) -> bool {
        self.v == -tree::nega(
            self.w,
            make::after(p, self.m),
            self.depth,
            self.lo,
            self.hi,
            ply + 1,
            self.cut,
            self.pv,
            Move(0),
        ).1
    }
}

/// The best of `alpha` and the first `n` scores.
pub open spec fn peak(log: Seq<Try>, n: nat, alpha: int) -> int
    decreases n,
{
    if n == 0 {
        alpha
    } else {
        let x = peak(log, (n - 1) as nat, alpha);
        if log[n - 1].v > x {
            log[n - 1].v
        } else {
            x
        }
    }
}

/// `m` was searched.
pub open spec fn tried(log: Seq<Try>, m: Move) -> bool {
    exists|i: int| 0 <= i < log.len() && (#[trigger] log[i]).m == m
}

/// Entry `i` was searched fairly: against the best found so far, never deeper
/// than the node allows; and what turned out to be better was searched to the
/// full depth, and with the full window unless it broke out of it.
pub open spec fn fair(p: Position, log: Seq<Try>, i: int, ply: int, alpha: int, beta: int, depth: int) -> bool {
    let t = log[i];
    let a = peak(log, i as nat, alpha);
    let d = depth - 1 + t.ext;
    &&& rules::legal(p, t.m)
    &&& t.honest(p, ply)
    &&& t.hi == -a
    &&& t.lo == -beta || t.lo == -a - 1
    &&& -2 <= t.ext <= 2
    &&& ply == 0 ==> t.ext == 0
    &&& t.depth <= d
    &&& d >= 1 ==> t.depth >= 1
    &&& i == 0 ==> t.depth == d && t.lo == -beta
    &&& t.v > a ==> t.depth == d
}

/// Every entry was searched fairly.
#[verifier::opaque]
pub open spec fn all_fair(p: Position, log: Seq<Try>, ply: int, alpha: int, beta: int, depth: int) -> bool {
    forall|i: int|
        #![trigger log[i]]
        0 <= i < log.len() ==> fair(p, log, i, ply, alpha, beta, depth)
}

proof fn lemma_peak(a: Seq<Try>, b: Seq<Try>, n: nat, alpha: int)
    requires
        n <= a.len(),
        n <= b.len(),
        forall|i: int| 0 <= i < n ==> a[i] == b[i],
    ensures
        peak(a, n, alpha) == peak(b, n, alpha),
    decreases n,
{
    if n > 0 {
        lemma_peak(a, b, (n - 1) as nat, alpha);
    }
}

/// One more fair entry.
proof fn lemma_push(p: Position, log: Seq<Try>, t: Try, ply: int, alpha: int, beta: int, depth: int)
    requires
        all_fair(p, log, ply, alpha, beta, depth),
        fair(p, log.push(t), log.len() as int, ply, alpha, beta, depth),
    ensures
        all_fair(p, log.push(t), ply, alpha, beta, depth),
{
    reveal(all_fair);
    let m = log.push(t);
    assert forall|i: int|
        #![trigger m[i]]
        0 <= i < m.len() implies fair(p, m, i, ply, alpha, beta, depth) by {
        if i < log.len() {
            assert(m[i] == log[i]);
            assert(fair(p, log, i, ply, alpha, beta, depth));
            lemma_peak(log, m, i as nat, alpha);
        }
    }
}

proof fn lemma_tried(log: Seq<Try>, t: Try, m: Move)
    ensures
        tried(log, m) ==> tried(log.push(t), m),
        tried(log.push(t), t.m),
{
    let x = log.push(t);
    assert(x[log.len() as int].m == t.m);
    if tried(log, m) {
        let i = choose|i: int| 0 <= i < log.len() && (#[trigger] log[i]).m == m;
        assert(x[i].m == m);
    }
}

// ---------------------------------------------------------------------------
// Searching one move
// ---------------------------------------------------------------------------

/// The search of a move, and what it leaves of the root's line.
proof fn lemma_attempt(
    w: World,
    p: Position,
    f: Frame,
    alpha: int,
    played: int,
    m: Move,
    ext: int,
) -> (t: Try)
    requires
        f.ply < 127,
        -2 <= ext <= 2,
    ensures
        t.m == m,
        t.ext == ext,
        t.v == tree::attempt(w, p, f, alpha, played, m, ext).1,
        t.honest(p, f.ply as int),
        t.hi == -alpha,
        t.lo == -f.beta || t.lo == -alpha - 1,
        t.depth <= f.depth - 1 + ext,
        f.depth - 1 + ext >= 1 ==> t.depth >= 1,
        played == 0 || t.v > alpha ==> t.depth == f.depth - 1 + ext,
        played == 0 ==> t.lo == -f.beta,
        f.pv && alpha < t.v < f.beta ==> t.lo == -f.beta || t.v <= alpha,
        lines::on(w, tree::attempt(w, p, f, alpha, played, m, ext).0),
{
    lines::lemma_attempt(w, p, f, alpha, played, m, ext);
    let d = f.depth - 1 + ext;
    let q = make::after(p, m);
    let w1 = w.stepped(f.ply as int, m, crate::learn::step_of(p, m));
    let ply = f.ply + 1;
    let beta = f.beta as int;
    let r = tree::reduction(w, p, f, played, m, d);
    assert(0 <= r <= clock::max(d - 1, 0) * 1024);
    if played == 0 {
        Try {
            m,
            v: -tree::nega(w1, q, d, -beta, -alpha, ply, false, f.pv, Move(0)).1,
            ext,
            w: w1,
            depth: d,
            lo: -beta,
            hi: -alpha,
            cut: false,
            pv: f.pv,
        }
    } else {
        let rd = d - r / 1024;
        let (w2, v2) = tree::nega(w1, q, rd, -alpha - 1, -alpha, ply, true, false, Move(0));
        let again = -v2 > alpha && rd < d;
        let (w3, v3) = if again {
            tree::nega(w2, q, d, -alpha - 1, -alpha, ply, !f.cut, false, Move(0))
        } else {
            (w2, v2)
        };
        if f.pv && alpha < -v3 < beta {
            Try {
                m,
                v: -tree::nega(w3, q, d, -beta, -alpha, ply, false, true, Move(0)).1,
                ext,
                w: w3,
                depth: d,
                lo: -beta,
                hi: -alpha,
                cut: false,
                pv: true,
            }
        } else if again {
            Try {
                m,
                v: -v3,
                ext,
                w: w2,
                depth: d,
                lo: -alpha - 1,
                hi: -alpha,
                cut: !f.cut,
                pv: false,
            }
        } else {
            Try {
                m,
                v: -v2,
                ext,
                w: w1,
                depth: rd,
                lo: -alpha - 1,
                hi: -alpha,
                cut: true,
                pv: false,
            }
        }
    }
}

// ---------------------------------------------------------------------------
// Searching all moves
// ---------------------------------------------------------------------------

/// Moves may be left out here: not at the root, not in check, and only once
/// some move is known to be better than being mated.
pub open spec fn may_prune(f: Frame, best: int) -> bool {
    f.ply > 0 && !f.in_check && best > -31_872
}

/// `m` may be left out here: where moves may be at all, a quiet one, or one that
/// loses material.
pub open spec fn may_drop(p: Position, f: Frame, best: int, m: Move) -> bool {
    &&& may_prune(f, best)
    // No capture, or one that does not pay.
    &&& (m.k() / 4) % 2 == 0 || see::see(p, m) < 0
}

/// Some entry is for `m` and has the score `v`.
pub open spec fn scored(log: Seq<Try>, m: Move, v: int) -> bool {
    exists|i: int| 0 <= i < log.len() && (#[trigger] log[i]).m == m && log[i].v == v
}

/// Some entry has the score `v`.
pub open spec fn reached(log: Seq<Try>, v: int) -> bool {
    exists|i: int| 0 <= i < log.len() && (#[trigger] log[i]).v == v
}

/// No entry has a better score.
pub open spec fn unbeaten(log: Seq<Try>, v: int) -> bool {
    forall|i: int| 0 <= i < log.len() ==> (#[trigger] log[i]).v <= v
}

/// Every move of the position but one was searched.
pub open spec fn complete(p: Position, log: Seq<Try>, ex: Move) -> bool {
    forall|m: Move|
        #![trigger tried(log, m)]
        movegen::move_list(p, GenKind::All).contains(m) && m != ex ==> tried(log, m)
}

/// What the table is told of a score: 2 if the node is worth at least that, 1 if
/// it is worth at most that, 3 if it is worth exactly that.
pub open spec fn meaning(v: int, alpha: int, beta: int) -> int {
    if v >= beta {
        2
    } else if v > alpha {
        3
    } else {
        1
    }
}

/// The last thing that the table was told is the score of this node, how deep it
/// was searched, and on which side the score bounds it.
#[verifier::opaque]
pub open spec fn on_file(t: Table, v: int, p: Position, f: Frame) -> bool {
    exists|u: Table, m: Move|
        t == #[trigger] u.stored(
            p.key,
            m,
            v,
            f.raw as int,
            f.depth as int,
            meaning(v, f.alpha as int, f.beta as int),
            f.ply as int,
        )
}

proof fn lemma_filed(w: World, p: Position, f: Frame, s: Run)
    requires
        s.played > 0,
        f.ex == Move(0),
        s.bound == meaning(s.best, f.alpha as int, f.beta as int),
    ensures
        on_file(tree::ended(w, p, f, s).0.table, s.best, p, f),
{
    reveal(on_file);
    reveal(World::noted);
    reveal(World::taught);
    let t = w.table.stored(
        p.key,
        s.best_move,
        s.best,
        f.raw as int,
        f.depth as int,
        s.bound,
        f.ply as int,
    );
    assert(tree::ended(w, p, f, s).0.table == t);
}

/// Where the search of a node's moves stands.
spec fn standing(w: World, p: Position, f: Frame, s: Run, log: Seq<Try>) -> bool {
    &&& f.ply < 127
    &&& p.wf()
    &&& -32_500 <= f.alpha
    &&& 0 <= s.i <= s.l.len()
    &&& s.played == log.len()
    &&& all_fair(p, log, f.ply as int, f.alpha as int, f.beta as int, f.depth as int)
    &&& s.alpha == peak(log, log.len(), f.alpha as int)
    &&& -32_500 <= s.best <= s.alpha
    &&& f.alpha <= s.alpha < f.beta
    &&& s.bound == meaning(s.alpha, f.alpha as int, f.beta as int)
    &&& s.alpha > f.alpha ==> s.best == s.alpha
    &&& unbeaten(log, s.best)
    &&& s.best > -32_500 ==> reached(log, s.best)
    &&& forall|m: Move| #[trigger]
        movegen::move_list(p, GenKind::All).contains(m) ==> s.l.contains(m)
    &&& forall|j: int|
        0 <= j < s.l.len() ==> movegen::move_list(p, GenKind::All).contains(#[trigger] s.l[j])
    &&& forall|j: int|
        0 <= j < s.i ==> #[trigger] s.l[j] == f.ex || tried(log, s.l[j]) || may_drop(
            p,
            f,
            s.best,
            s.l[j],
        )
    &&& s.skip ==> may_prune(f, s.best)
    &&& f.ply == 0 && f.pv ==> {
        &&& twin::lined_up(w)
        &&& s.alpha > f.alpha ==> {
            &&& s.alpha == s.best
            &&& w.pv_len[0] > 0
            &&& w.pv[0] == s.best_move
            &&& scored(log, s.best_move, s.best)
        }
    }
}

/// What the search of a node's moves comes to: `r` is the score, and `log` is
/// what it rests on.
pub open spec fn summed_up(r: (World, int), p: Position, f: Frame, log: Seq<Try>) -> bool {
    &&& all_fair(p, log, f.ply as int, f.alpha as int, f.beta as int, f.depth as int)
    &&& log.len() > 0 ==> {
        &&& unbeaten(log, r.1)
        &&& -32_500 < r.1 < f.beta ==> reached(log, r.1)
        &&& f.ply == 0 && r.1 >= f.beta ==> reached(log, r.1)
    }
    // Unless there was a cutoff, no move was left out where none may be.
    &&& r.1 < f.beta && !(log.len() > 0 && may_prune(f, r.1)) ==> complete(p, log, f.ex)
    // The score goes into the table for what it is.
    &&& log.len() > 0 && f.ex == Move(0) && (r.1 < f.beta || f.ply == 0) ==> on_file(
        r.0.table,
        r.1,
        p,
        f,
    )
    // And no capture was that does not lose material.
    &&& r.1 < f.beta ==> forall|m: Move|
        #![trigger tried(log, m)]
        movegen::move_list(p, GenKind::All).contains(m) && m != f.ex && (m.k() / 4) % 2 == 1
            && see::see(p, m) >= 0 ==> tried(log, m)
    &&& log.len() == 0 && f.ex == Move(0) && f.ply == 0 ==> movegen::move_list(
        p,
        GenKind::All,
    ).len() == 0
    &&& f.ply == 0 && f.pv && f.ex == Move(0) && log.len() > 0 && r.1 > f.alpha ==> {
        &&& r.0.pv_len[0] > 0
        &&& scored(log, r.0.pv[0], r.1)
    }
}

proof fn lemma_swapped(l: Seq<Move>, i: int, b: int, m: Move)
    requires
        0 <= i <= b < l.len(),
    ensures
        l.contains(m) <==> movegen::swapped(l, i, b).contains(m),
{
    let x = movegen::swapped(l, i, b);
    assert(x[i] == l[b] && x[b] == l[i]);
    if l.contains(m) {
        let j = choose|j: int| 0 <= j < l.len() && l[j] == m;
        let k = if j == i {
            b
        } else if j == b {
            i
        } else {
            j
        };
        assert(x[k] == m);
    }
    if x.contains(m) {
        let j = choose|j: int| 0 <= j < x.len() && x[j] == m;
        let k = if j == i {
            b
        } else if j == b {
            i
        } else {
            j
        };
        assert(l[k] == m);
    }
}

/// Picking the next move changes nothing that matters.
proof fn lemma_picked(w: World, p: Position, f: Frame, s: Run, log: Seq<Try>)
    requires
        standing(w, p, f, s, log),
        s.i < s.l.len(),
    ensures
        standing(w, p, f, s.picked(), log),
        s.picked().l.len() == s.l.len(),
        movegen::move_list(p, GenKind::All).contains(s.picked().l[s.i]),
        rules::legal(p, s.picked().l[s.i]),
{
    movegen::lemma_best_upto(s.sc, s.i, s.l.len() as int);
    let b = movegen::best_upto(s.sc, s.i, s.l.len() as int);
    let x = s.picked();
    assert forall|m: Move| #[trigger]
        movegen::move_list(p, GenKind::All).contains(m) implies x.l.contains(m) by {
        lemma_swapped(s.l, s.i, b, m);
    }
    assert forall|j: int| 0 <= j < x.l.len() implies movegen::move_list(
        p,
        GenKind::All,
    ).contains(#[trigger] x.l[j]) by {
        lemma_swapped(s.l, s.i, b, x.l[j]);
        let k = choose|k: int| 0 <= k < s.l.len() && s.l[k] == x.l[j];
        assert(movegen::move_list(p, GenKind::All).contains(s.l[k]));
    }
    assert forall|j: int| 0 <= j < x.i implies #[trigger] x.l[j] == f.ex || tried(log, x.l[j])
        || may_drop(p, f, x.best, x.l[j]) by {
        assert(x.l[j] == s.l[j]);
    }
    legal::law_generated_is_legal(p, x.l[s.i]);
}

/// The end of a node's moves.
proof fn lemma_ended(w: World, p: Position, f: Frame, s: Run, log: Seq<Try>)
    requires
        standing(w, p, f, s, log),
        s.i == s.l.len(),
    ensures
        summed_up(tree::ended(w, p, f, s), p, f, log),
{
    broadcast use lines::group_level;

    let r = tree::ended(w, p, f, s);
    if log.len() > 0 && f.ex == Move(0) {
        lemma_filed(w, p, f, s);
    }
    assert forall|m: Move|
        #![trigger tried(log, m)]
        movegen::move_list(p, GenKind::All).contains(m) && m != f.ex && (m.k() / 4) % 2 == 1
            && see::see(p, m) >= 0 implies tried(log, m) by {
        assert(s.l.contains(m));
        let j = choose|j: int| 0 <= j < s.l.len() && s.l[j] == m;
        assert(s.l[j] == f.ex || tried(log, s.l[j]) || may_drop(p, f, s.best, s.l[j]));
    }
    if !(log.len() > 0 && may_prune(f, s.best)) {
        assert forall|m: Move|
            #![trigger tried(log, m)]
            movegen::move_list(p, GenKind::All).contains(m) && m != f.ex implies tried(log, m) by {
            assert(s.l.contains(m));
            let j = choose|j: int| 0 <= j < s.l.len() && s.l[j] == m;
            assert(s.l[j] == f.ex || tried(log, s.l[j]) || may_drop(p, f, s.best, s.l[j]));
        }
        if log.len() == 0 && f.ex == Move(0) && movegen::move_list(p, GenKind::All).len() > 0 {
            let m = movegen::move_list(p, GenKind::All)[0];
            assert(movegen::move_list(p, GenKind::All).contains(m));
            legal::law_generated_is_legal(p, m);
            crate::quiet::lemma_not_null(p, m);
            assert(tried(log, m));
        }
    }
}

/// A score that is no cutoff goes on the record.
#[verifier::rlimit(60)]
proof fn lemma_noted(
    w: World,
    w3: World,
    p: Position,
    f: Frame,
    s: Run,
    log: Seq<Try>,
    t: Try,
) -> (n: Run)
    requires
        standing(w, p, f, s, log),
        s.i < s.l.len(),
        t.m == s.l[s.i],
        rules::legal(p, t.m),
        fair(
            p,
            log.push(t),
            log.len() as int,
            f.ply as int,
            f.alpha as int,
            f.beta as int,
            f.depth as int,
        ),
        t.v < f.beta,
        f.ply == 0 && f.pv ==> twin::lined_up(w3) && if t.v > s.alpha {
            w3.pv_len[0] > 0 && w3.pv[0] == t.m
        } else {
            w3.pv_len[0] == w.pv_len[0] && w3.pv[0] == w.pv[0]
        },
    ensures
        n == (if t.v <= s.best {
            Run { i: s.i + 1, ..s }.tried(t.m)
        } else if t.v <= s.alpha {
            Run { best: t.v, ..Run { i: s.i + 1, ..s }.tried(t.m) }
        } else {
            Run {
                best: t.v,
                alpha: t.v,
                best_move: t.m,
                bound: 3,
                ..Run { i: s.i + 1, ..s }.tried(t.m)
            }
        }),
        standing(w3, p, f, n, log.push(t)),
{
    let x = log.push(t);
    let n = if t.v <= s.best {
        Run { i: s.i + 1, ..s }.tried(t.m)
    } else if t.v <= s.alpha {
        Run { best: t.v, ..Run { i: s.i + 1, ..s }.tried(t.m) }
    } else {
        Run {
            best: t.v,
            alpha: t.v,
            best_move: t.m,
            bound: 3,
            ..Run { i: s.i + 1, ..s }.tried(t.m)
        }
    };
    lemma_push(p, log, t, f.ply as int, f.alpha as int, f.beta as int, f.depth as int);
    lemma_peak(log, x, log.len(), f.alpha as int);
    assert(x[log.len() as int] == t);
    assert forall|j: int| 0 <= j < n.i implies #[trigger] n.l[j] == f.ex || tried(x, n.l[j])
        || may_drop(p, f, n.best, n.l[j]) by {
        lemma_tried(log, t, n.l[j]);
        if j < s.i {
            assert(s.l[j] == f.ex || tried(log, s.l[j]) || may_drop(p, f, s.best, s.l[j]));
        }
    }
    assert forall|i: int| 0 <= i < x.len() implies (#[trigger] x[i]).v <= n.best by {
        if i < log.len() {
            assert(x[i] == log[i]);
        }
    }
    if n.best > -32_500 {
        if t.v <= s.best {
            let i = choose|i: int| 0 <= i < log.len() && (#[trigger] log[i]).v == s.best;
            assert(x[i].v == n.best);
        } else {
            assert(x[log.len() as int].v == n.best);
        }
    }
    if f.ply == 0 && f.pv && n.alpha > f.alpha {
        if t.v > s.alpha {
            assert(x[log.len() as int].m == n.best_move);
        } else {
            let i = choose|i: int|
                0 <= i < log.len() && (#[trigger] log[i]).m == s.best_move && log[i].v == s.best;
            assert(x[i].m == n.best_move && x[i].v == n.best);
        }
    }
    n
}

/// The moves of a node from a given one on.
#[verifier::rlimit(60)]
proof fn lemma_walk(w: World, p: Position, f: Frame, s: Run, log: Seq<Try>) -> (out: Seq<Try>)
    requires
        standing(w, p, f, s, log),
        0 <= f.depth <= 1000,
    ensures
        summed_up(tree::walk(w, p, f, s), p, f, out),
    decreases s.l.len() - s.i, 1int,
{
    broadcast use lines::group_level;

    if s.i >= s.l.len() {
        lemma_ended(w, p, f, s, log);
        log
    } else {
        lemma_picked(w, p, f, s, log);
        movegen::lemma_best_upto(s.sc, s.i, s.l.len() as int);
        let s1 = s.picked();
        let m = s1.l[s.i];
        let s2 = Run { i: s.i + 1, ..s1 };
        if m == f.ex || s.skip && !crate::mind::is_noisy(m) && !m.pro() {
            lemma_walk(w, p, f, s2, log)
        } else {
            match tree::fate(w, p, f, s.alpha, s.best, s.played, m) {
                Fate::Skip => lemma_walk(w, p, f, s2, log),
                Fate::SkipQuiets => lemma_walk(w, p, f, Run { skip: true, ..s2 }, log),
                Fate::Keep => lemma_kept(w, p, f, s, log),
            }
        }
    }
}

/// The next move is searched.
#[verifier::rlimit(60)]
proof fn lemma_kept(w: World, p: Position, f: Frame, s: Run, log: Seq<Try>) -> (out: Seq<Try>)
    requires
        standing(w, p, f, s, log),
        0 <= f.depth <= 1000,
        s.i < s.l.len(),
        s.picked().l[s.i] != f.ex,
        !(s.skip && !crate::mind::is_noisy(s.picked().l[s.i]) && !s.picked().l[s.i].pro()),
        tree::fate(w, p, f, s.alpha, s.best, s.played, s.picked().l[s.i]) == Fate::Keep,
    ensures
        summed_up(tree::walk(w, p, f, s), p, f, out),
    decreases s.l.len() - s.i, 0int,
{
    broadcast use lines::group_level;

    lemma_picked(w, p, f, s, log);
    movegen::lemma_best_upto(s.sc, s.i, s.l.len() as int);
    let s1 = s.picked();
    let m = s1.l[s.i];
    let s2 = Run { i: s.i + 1, ..s1 };
    let (w1, e) = tree::reach(w, p, f, m);
    match e {
        Reach::Cut(v) => {
            assert(v >= f.beta && f.ply > 0);
            assert forall|i: int| 0 <= i < log.len() implies (#[trigger] log[i]).v <= v by {}
            assert(tree::walk(w, p, f, s) == (w1, v as int));
            log
        },
        Reach::By(x) => {
            let t = lemma_attempt(w1, p, f, s.alpha, s.played, m, x as int);
            let (w2, v) = tree::attempt(w1, p, f, s.alpha, s.played, m, x as int);
            let w3 = if f.pv {
                w2.lined(f.ply as int, m)
            } else {
                w2
            };
            let more = log.push(t);
            lemma_peak(log, more, log.len(), f.alpha as int);
            assert(more[log.len() as int] == t);
            assert(f.ply == 0 ==> w1 == w);
            assert(f.ply == 0 && f.pv ==> twin::lined_up(w3) && w3.pv_len[0] > 0 && w3.pv[0] == m)
                by {
                reveal(World::lined);
                if f.ply == 0 && f.pv {
                    assert(w2.pv_len[1] <= 127);
                }
            }
            if v < f.beta {
                let n = lemma_noted(
                    w,
                    if v <= s.alpha {
                        w2
                    } else {
                        w3
                    },
                    p,
                    f,
                    s1,
                    log,
                    t,
                );
                lemma_walk(
                    if v <= s.alpha {
                        w2
                    } else {
                        w3
                    },
                    p,
                    f,
                    n,
                    more,
                )
            } else {
                lemma_push(p, log, t, f.ply as int, f.alpha as int, f.beta as int, f.depth as int);
                assert forall|i: int| 0 <= i < more.len() implies (#[trigger] more[i]).v <= v by {
                    if i < log.len() {
                        assert(more[i] == log[i]);
                    }
                }
                assert(more[log.len() as int].v == v && more[log.len() as int].m == m);
                assert(scored(more, m, v) && reached(more, v) && unbeaten(more, v));
                let w4 = w3.credited(p, m, f.ply as int, f.depth as int, s.quiets, s.takes);
                let n = Run {
                    best: v,
                    alpha: v,
                    best_move: m,
                    bound: 2,
                    played: s.played + 1,
                    ..s2
                };
                assert(v > s.alpha && v > s.best);
                if f.ex == Move(0) {
                    lemma_filed(w4, p, f, n);
                }
                assert(tree::walk(w, p, f, s) == tree::ended(w4, p, f, n));
                assert(lines::level(w3, w4));
                assert(lines::level(w4, tree::ended(w4, p, f, n).0));
                more
            }
        },
    }
}

// ---------------------------------------------------------------------------
// The laws
// ---------------------------------------------------------------------------

/// The score of a node with moves is the best that any searched move gets: what
/// its opponent makes of the position after it. Every legal move is searched at
/// the root and in check, and as long as none is known to be better than being
/// mated, and elsewhere every capture that does not lose material; only a score
/// that breaks out of the window ends the search early.
pub proof fn law_a_node_is_worth_its_best_move(w: World, p: Position, f: Frame) -> (log: Seq<Try>)
    requires
        p.wf(),
        f.ply < 127,
        0 <= f.depth <= 1000,
        -32_500 <= f.alpha < f.beta,
        twin::lined_up(w),
        f.ply == 0 && f.pv ==> f.ex == Move(0),
        movegen::move_list(p, GenKind::All).len() > 0,
    ensures
        summed_up(tree::tour(w, p, f), p, f, log),
{
    reveal(tree::menu);
    let l = movegen::move_list(p, GenKind::All);
    let s = Run {
        l,
        sc: w.ranks(p, l, f.tt_move, f.ply as int, -20),
        i: 0,
        alpha: f.alpha as int,
        best: -32_500,
        best_move: Move(0),
        bound: 1,
        quiets: Seq::empty(),
        takes: Seq::empty(),
        played: 0,
        skip: false,
    };
    let none = Seq::<Try>::empty();
    assert(all_fair(p, none, f.ply as int, f.alpha as int, f.beta as int, f.depth as int)) by {
        reveal(all_fair);
    }
    assert forall|j: int| 0 <= j < s.l.len() implies l.contains(#[trigger] s.l[j]) by {}
    lemma_walk(w, p, f, s, none)
}

/// How a search of the root went: `r` is its world and its score, `depth` and
/// the window are what was asked for, and `log` is what it did.
///
/// Every legal move was searched unless one broke out of the window; the score
/// is the best of theirs; and the root's line begins with the move that got it.
pub open spec fn rooted(
    r: (World, int),
    p: Position,
    depth: int,
    alpha: int,
    beta: int,
    log: Seq<Try>,
) -> bool {
    &&& exists|d: int|
        {
            &&& depth - 2 <= d <= depth
            &&& depth < 4 || p.checkers != 0 ==> d == depth
            &&& #[trigger] all_fair(p, log, 0, alpha, beta, d)
        }
    &&& unbeaten(log, r.1)
    &&& r.1 > -32_500 ==> reached(log, r.1)
    &&& r.1 < beta ==> forall|m: Move|
        #![trigger tried(log, m)]
        rules::legal(p, m) && (m.is_ep_spec() ==> bits::card(p.checkers) <= 1) ==> tried(log, m)
    &&& r.1 > alpha ==> r.0.pv_len[0] > 0 && scored(log, r.0.pv[0], r.1)
}

/// At the root no legal move is left out, the score is the best score of all,
/// and the line begins with the move that has it.
pub proof fn law_the_root_leaves_no_move_out(w: World, p: Position, depth: int, alpha: int, beta: int) -> (log:
    Seq<Try>)
    requires
        p.wf(),
        1 <= depth <= 1000,
        -32_500 <= alpha < beta <= 32_500,
        twin::lined_up(w),
        movegen::move_list(p, GenKind::All).len() > 0,
    ensures
        rooted(
            tree::nega(w, p, depth, alpha, beta, 0, false, true, Move(0)),
            p,
            depth,
            alpha,
            beta,
            log,
        ),
{
    broadcast use lines::group_level;

    let w1 = w.ticked().opened(0).counted(0);
    let w2 = w1.forgot(0);
    let h = w2.table.found(p.key, 0);
    let (w3, f) = tree::framed(w2, p, depth, alpha, beta, 0, false, true, Move(0), h);
    assert(twin::lined_up(w3)) by {
        reveal(World::opened);
    }
    let g = tree::eased(f);
    let r = tree::nega(w, p, depth, alpha, beta, 0, false, true, Move(0));
    assert(r == tree::tour(w3, p, g));
    let log = law_a_node_is_worth_its_best_move(w3, p, g);
    assert(log.len() > 0);
    assert(all_fair(p, log, 0, alpha, beta, g.depth as int));
    if r.1 < beta {
        assert forall|m: Move|
            #![trigger tried(log, m)]
            rules::legal(p, m) && (m.is_ep_spec() ==> bits::card(p.checkers) <= 1) implies tried(
            log,
            m,
        ) by {
            legal::law_legal_is_generated(p, m);
            crate::quiet::lemma_not_null(p, m);
        }
    }
    log
}

/// `best` is the best of all legal moves: every one of them was searched, and no
/// score is better than its `score`. All are scores of the positions after the
/// moves, as the opponent sees them.
pub open spec fn best_of_all(p: Position, best: Move, score: int, log: Seq<Try>) -> bool {
    &&& forall|i: int|
        #![trigger log[i]]
        0 <= i < log.len() ==> rules::legal(p, log[i].m) && log[i].honest(p, 0)
    &&& forall|m: Move|
        #![trigger tried(log, m)]
        rules::legal(p, m) && (m.is_ep_spec() ==> bits::card(p.checkers) <= 1) ==> tried(log, m)
    &&& unbeaten(log, score)
    &&& scored(log, best, score)
}

/// A world as a search finds and leaves it.
spec fn orderly(w: World) -> bool {
    twin::twin(w, w, 0, false)
}

proof fn lemma_orderly(w: World, r: bool)
    requires
        twin::twin(w, w, 0, r),
    ensures
        orderly(w),
        twin::lined_up(w),
{
    reveal(twin::twin);
}

/// The search that settles an iteration.
proof fn lemma_settled(
    w: World,
    p: Position,
    depth: int,
    cur: int,
    alpha: int,
    beta: int,
    delta: int,
) -> (log: Seq<Try>)
    requires
        orderly(w),
        p.wf(),
        movegen::move_list(p, GenKind::All).len() > 0,
        1 <= cur <= depth <= 1000,
        -32_500 <= alpha < beta <= 32_500,
        delta >= 1,
    ensures
        ({
            let (w1, v) = think::aspire(w, p, depth, cur, alpha, beta, delta);
            &&& orderly(w1)
            &&& -32_500 < v < 32_500 ==> {
                &&& w1.pv_len[0] > 0
                &&& best_of_all(p, w1.pv[0], v, log)
            }
        }),
    decreases alpha + 32_500, 32_500 - beta,
{
    let (w1, v) = tree::nega(w, p, cur, alpha, beta, 0, false, true, Move(0));
    lemma_orderly(w, false);
    twin::lemma_nega(w, w, false, p, cur, alpha, beta, 0, false, true, Move(0));
    lemma_orderly(w1, true);
    let log = law_the_root_leaves_no_move_out(w, p, cur, alpha, beta);
    if v <= alpha && alpha > -32_500 {
        lemma_settled(
            w1,
            p,
            depth,
            depth,
            clock::max(v - delta, -32_500),
            crate::eval::quot(alpha + beta, 2),
            think::grown(delta),
        )
    } else if v > alpha && v >= beta && beta < 32_500 {
        lemma_settled(
            w1,
            p,
            depth,
            if cur > 1 && crate::geom::abs(v) < 31_872 {
                cur - 1
            } else {
                cur
            },
            alpha,
            clock::min(v + delta, 32_500),
            think::grown(delta),
        )
    } else {
        if -32_500 < v < 32_500 {
            let d = choose|d: int|
                {
                    &&& cur - 2 <= d <= cur
                    &&& cur < 4 || p.checkers != 0 ==> d == cur
                    &&& #[trigger] all_fair(p, log, 0, alpha, beta, d)
                };
            reveal(all_fair);
            assert forall|i: int|
                #![trigger log[i]]
                0 <= i < log.len() implies rules::legal(p, log[i].m) && log[i].honest(p, 0) by {
                assert(fair(p, log, i, 0, alpha, beta, d));
            }
        }
        log
    }
}

/// One iteration after another.
proof fn lemma_deepened(w: World, p: Position, best: Move, first: int, k: nat)
    requires
        orderly(w),
        p.wf(),
        movegen::move_list(p, GenKind::All).len() > 0,
        1 <= first,
        first + k <= 1000,
        forall|j: nat|
            0 < j < k ==> -32_500 < (#[trigger] think::deepened(w, p, best, first, j)).score
                < 32_500,
    ensures
        orderly(think::deepened(w, p, best, first, k).w),
    decreases k,
{
    if k > 0 {
        let j = (k - 1) as nat;
        lemma_deepened(w, p, best, first, j);
        let d = think::deepened(w, p, best, first, j);
        let x = lemma_iteration(d.w, p, first + j, d.score);
    }
}

/// One iteration.
proof fn lemma_iteration(w: World, p: Position, depth: int, score: int) -> (log: Seq<Try>)
    requires
        orderly(w),
        p.wf(),
        movegen::move_list(p, GenKind::All).len() > 0,
        1 <= depth <= 1000,
        -32_500 < score < 32_500,
    ensures
        ({
            let (w1, v) = think::tree_score(w, p, depth, score);
            &&& orderly(w1)
            &&& -32_500 < v < 32_500 ==> {
                &&& w1.pv_len[0] > 0
                &&& best_of_all(p, w1.pv[0], v, log)
            }
        }),
{
    let (a, b) = think::window(depth, score);
    assert(score * score >= 0) by (nonlinear_arith);
    assert(think::opening(score) >= 10);
    lemma_settled(w, p, depth, depth, a, b, think::opening(score))
}

/// What a finished search answers is the best of all legal moves, as far as the
/// searches of the positions after them in its last iteration tell, and the
/// score is that move's.
pub proof fn law_the_answer_is_the_best_of_all(
    o: Searcher,
    n: Searcher,
    p: Position,
    k: nat,
    times: Seq<u64>,
) -> (log: Seq<Try>)
    requires
        o.wf(),
        p.wf(),
        movegen::move_list(p, GenKind::All).len() > 0,
        o.first_depth() >= 1,
        n.concluded(o, p, k, times),
        k > 0,
        // Scores lie between being mated and mating.
        forall|j: nat|
            0 < j <= k ==> -32_500 < (#[trigger] think::deepened(
                o@.started(),
                p,
                movegen::move_list(p, GenKind::All)[0],
                o.first_depth(),
                j,
            )).score < 32_500,
    ensures
        best_of_all(p, n.best, n.best_score as int, log),
{
    let w = o@.started();
    let b = movegen::move_list(p, GenKind::All)[0];
    let first = o.first_depth();
    assert(orderly(w)) by {
        reveal(World::started);
        reveal(twin::twin);
        reveal(twin::alike);
    }
    let j = (k - 1) as nat;
    lemma_deepened(w, p, b, first, j);
    let d = think::deepened(w, p, b, first, j);
    assert(-32_500 < d.score < 32_500);
    let e = think::deepened(w, p, b, first, k);
    assert(-32_500 < e.score < 32_500);
    lemma_iteration(d.w, p, first + j, d.score)
}

/// Each iteration searches the root one ply deeper than the last one did: at
/// first with an open window, from the fourth ply on with one around the last
/// score, at least ten centipawns to either side. If the score lies inside, the
/// iteration is done with it; if it does not, the root is searched again.
pub proof fn law_iterations_deepen(w: World, p: Position, best: Move, first: int, k: nat)
    requires
        k > 0,
    ensures
        ({
            let d = think::deepened(w, p, best, first, (k - 1) as nat);
            let e = think::deepened(w, p, best, first, k);
            let depth = first + k - 1;
            let (a, b) = think::window(depth, d.score);
            let r = tree::nega(d.w, p, depth, a, b, 0, false, true, Move(0));
            &&& depth < 4 ==> a == -32_500 && b == 32_500
            &&& depth >= 4 && -32_500 < d.score < 32_500 ==> {
                &&& a <= d.score - 10 || a == -32_500
                &&& b >= d.score + 10 || b == 32_500
                &&& a < d.score < b
            }
            &&& a < r.1 < b ==> e.w == r.0 && e.score == r.1 && (r.0.pv_len[0] > 0 ==> e.best
                == r.0.pv[0])
        }),
{
    let d = think::deepened(w, p, best, first, (k - 1) as nat);
    let x = d.score;
    assert(x * x >= 0) by (nonlinear_arith);
}

/// A search without a clock that was not stopped goes to the depth it was given,
/// or to a hundred plies; only a mate ends it sooner, and not before the fourth
/// ply.
pub proof fn law_depths_are_reached(o: Searcher, n: Searcher, p: Position, k: nat, times: Seq<u64>)
    requires
        n.concluded(o, p, k, times),
        !n.stop,
        o.start_depth == 0,
        o.limits.movetime == 0,
        o.limits.time@[p.stm as int] == 0,
        o.limits.depth >= 1,
    ensures
        k <= o.limits.depth,
        k <= 100,
        k < o.limits.depth && k < 100 ==> k >= 4 && (n.best_score >= 31_872 || n.best_score
            <= -31_872),
{
    reveal(Searcher::rests);
}

} // verus!
