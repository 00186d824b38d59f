//! What a search computes: a function of the position and of everything the
//! searcher remembers.
//!
//! Fail-soft principal-variation search, from the node down:
//!
//!   - transposition cutoff
//!   - static evaluation, corrected by the search's own past residuals
//!   - whole-node pruning: reverse futility, razoring, null move, probable cut
//!   - move loop
//!       - per-move pruning: late-move, futility, exchange, history
//!       - extensions: check, singular
//!       - late-move reduction and re-search ladder
//!   - quiescence at the horizon

use vstd::prelude::*;
use crate::checks;
use crate::clock::{max, min};
use crate::eval;
use crate::geom;
use crate::learn;
use crate::make;
use crate::mind;
use crate::mind::World;
use crate::movegen;
use crate::movegen::GenKind;
use crate::moves::Move;
use crate::pos::Position;
use crate::see;
use crate::tt::Hit;

verus! {

/// A table entry that settles a node with this window.
pub open spec fn settles(h: Hit, alpha: int, beta: int) -> bool {
    ||| h.bound == 3
    ||| h.bound == 2 && h.score >= beta
    ||| h.bound == 1 && h.score <= alpha
}

/// The moves of a node.
#[verifier::opaque]
pub open spec fn menu(p: Position, kind: GenKind) -> Seq<Move> {
    movegen::move_list(p, kind)
}

/// What a node is worth where the tree may not grow further.
pub open spec fn horizon(w: World, p: Position) -> (World, int) {
    if p.checkers != 0 {
        (w, 0)
    } else {
        (w.assessed(p), eval::score(w.brain, p))
    }
}

// ---------------------------------------------------------------------------
// Quiescence
// ---------------------------------------------------------------------------

/// A quiescence node.
pub struct Calm {
    pub beta: int,
    pub ply: int,
    pub pv: bool,
    pub in_check: bool,
    pub raw: int,
    pub stand: int,
}

/// How far the moves of a quiescence node have been gone through.
pub struct Sift {
    pub l: Seq<Move>,
    pub sc: Seq<i32>,
    pub i: int,
    pub alpha: int,
    pub best: int,
    pub best_move: Move,
    pub bound: int,
}

impl Sift {
    /// The next move is picked.
    pub open spec fn picked(self) -> Sift {
        let b = movegen::best_upto(self.sc, self.i, self.l.len() as int);
        Sift {
            l: movegen::swapped(self.l, self.i, b),
            sc: movegen::swapped(self.sc, self.i, b),
            ..self
        }
    }
}

/// Quiescence search: captures until the position is quiet, every evasion while
/// in check.
pub open spec fn calm(w: World, p: Position, alpha: int, beta: int, ply: int, pv: bool) -> (
    World,
    int,
)
    decreases 128 - ply, 0int, 2int, 0int,
{
    let w1 = w.ticked().counted(ply);
    if p.drawn(ply) || p.bare() {
        (w1, 0)
    } else if ply >= 127 {
        horizon(w1, p)
    } else {
        let h = w1.table.found(p.key, ply);
        if !pv && (h matches Some(x) && settles(x, alpha, beta)) {
            (w1, h->0.score as int)
        } else {
            let in_check = p.checkers != 0;
            let raw = if in_check {
                -32_500
            } else if h is Some {
                h->0.eval as int
            } else {
                eval::score(w1.brain, p)
            };
            let w2 = if in_check || h is Some {
                w1
            } else {
                w1.assessed(p)
            };
            let stand = if in_check {
                -32_500
            } else {
                w2.corrected(p, ply, raw)
            };
            if !in_check && stand >= beta {
                (w2.noted(p, Move(0), stand, raw, 0, 2, ply), stand)
            } else {
                let l = menu(
                    p,
                    if in_check {
                        GenKind::All
                    } else {
                        GenKind::Noisy
                    },
                );
                let tt_move = if h is Some {
                    h->0.mv
                } else {
                    Move(0)
                };
                if l.len() == 0 {
                    (
                        w2,
                        if in_check {
                            ply - 32_000
                        } else {
                            stand
                        },
                    )
                } else {
                    sift(
                        w2,
                        p,
                        Calm { beta, ply, pv, in_check, raw, stand },
                        Sift {
                            l,
                            sc: w2.ranks(
                                p,
                                l,
                                tt_move,
                                ply,
                                if in_check {
                                    -20
                                } else {
                                    0
                                },
                            ),
                            i: 0,
                            alpha: if in_check {
                                alpha
                            } else {
                                max(alpha, stand)
                            },
                            best: stand,
                            best_move: Move(0),
                            bound: 1,
                        },
                    )
                }
            }
        }
    }
}

/// A quiescence node from a given move on.
pub open spec fn sift(w: World, p: Position, c: Calm, s: Sift) -> (World, int)
    decreases 128 - c.ply, 0int, 1int, s.l.len() - s.i,
{
    let done = (w.noted(p, s.best_move, s.best, c.raw, 0, s.bound, c.ply), s.best);
    if s.i < 0 || s.i >= s.l.len() || c.ply >= 127 {
        done
    } else {
        proof {
            movegen::lemma_best_upto(s.sc, s.i, s.l.len() as int);
        }
        let s1 = s.picked();
        let (m, x) = (s1.l[s.i], s1.sc[s.i]);
        let s2 = Sift { i: s.i + 1, ..s1 };
        if !c.in_check && x < 0 {
            // Everything left over is a losing capture.
            done
        } else if !c.in_check && (c.stand + see::gain(p, m) + 150 < s.alpha || x >= 8_388_608
            && see::see(p, m) < 0) {
            sift(w, p, c, s2)
        } else {
            let (w1, v) = calm(w, make::after(p, m), -c.beta, -s.alpha, c.ply + 1, c.pv);
            if -v <= s.best {
                sift(w1, p, c, s2)
            } else if -v <= s.alpha {
                sift(w1, p, c, Sift { best: -v, ..s2 })
            } else if -v < c.beta {
                sift(w1, p, c, Sift { best: -v, alpha: -v, best_move: m, bound: 3, ..s2 })
            } else {
                (w1.noted(p, m, -v, c.raw, 0, 2, c.ply), -v)
            }
        }
    }
}

// ---------------------------------------------------------------------------
// A node of the main search
// ---------------------------------------------------------------------------

/// What is known of a node before its moves are looked at.
#[derive(Clone, Copy)]
pub struct Frame {
    pub depth: i32,
    pub alpha: i32,
    pub beta: i32,
    pub ply: usize,
    /// Expected to fail high.
    pub cut: bool,
    /// Searched with an open window.
    pub pv: bool,
    /// A move left out, where the others are being compared with it.
    pub ex: Move,
    pub in_check: bool,
    pub tt_move: Move,
    pub tt_score: i32,
    pub tt_depth: i32,
    pub tt_bound: u8,
    /// The evaluation as it is stored.
    pub raw: i32,
    /// What the correction tables make of it.
    pub corrected: i32,
    /// The best estimate there is.
    pub eval: i32,
    /// Better off than two plies ago.
    pub improving: bool,
}

impl Frame {
    /// 1 while no move is left out.
    pub open spec fn whole(self) -> int {
        if self.ex == Move(0) {
            1
        } else {
            0
        }
    }
}

/// Is the position better than it was two plies ago, or four if that one was a
/// check?
pub open spec fn rising(w: World, ply: int, in_check: bool, corrected: int) -> bool {
    if in_check {
        false
    } else if ply >= 2 && w.stack[ply - 2].eval != -32_500 {
        corrected > w.stack[ply - 2].eval
    } else if ply >= 4 && w.stack[ply - 4].eval != -32_500 {
        corrected > w.stack[ply - 4].eval
    } else {
        true
    }
}

/// The static evaluation of a node. What the table says of it comes first.
pub open spec fn framed(
    w: World,
    p: Position,
    depth: int,
    alpha: int,
    beta: int,
    ply: int,
    cut: bool,
    pv: bool,
    ex: Move,
    h: Option<Hit>,
) -> (World, Frame) {
    let in_check = p.checkers != 0;
    let told = h matches Some(x) && geom::abs(x.eval as int) < 31_872;
    let raw = if in_check {
        -32_500
    } else if told {
        h->0.eval as int
    } else {
        eval::score(w.brain, p)
    };
    let w1 = if in_check || told {
        w
    } else {
        w.assessed(p)
    };
    let corrected = if in_check {
        -32_500
    } else {
        w1.corrected(p, ply, raw)
    };
    // The table's score is a better estimate than the static evaluation when it
    // is on the right side of it.
    let better = !in_check && (h matches Some(x) && geom::abs(x.score as int) < 31_872 && (x.bound
        == 2 && x.score > corrected || x.bound == 1 && x.score < corrected || x.bound == 3));
    let w2 = w1.marked(ply, corrected);
    (
        w2,
        Frame {
            depth: depth as i32,
            alpha: alpha as i32,
            beta: beta as i32,
            ply: ply as usize,
            cut,
            pv,
            ex,
            in_check,
            tt_move: if h is Some {
                h->0.mv
            } else {
                Move(0)
            },
            tt_score: if h is Some {
                h->0.score
            } else {
                0
            },
            tt_depth: if h is Some {
                h->0.depth
            } else {
                -1i32
            },
            tt_bound: if h is Some {
                h->0.bound
            } else {
                0
            },
            raw: raw as i32,
            corrected: corrected as i32,
            eval: if better {
                h->0.score
            } else {
                corrected as i32
            },
            improving: rising(w2, ply, in_check, corrected),
        },
    )
}

/// A cutoff from the table still deserves a history nudge, or ordering degrades
/// in positions the table already knows.
pub open spec fn nudged(w: World, p: Position, h: Hit, depth: int, beta: int, ply: int) -> World {
    if h.score >= beta && h.mv != Move(0) && !mind::is_noisy(h.mv) {
        w.rewarded(p, h.mv, ply, depth * 100)
    } else {
        w
    }
}

/// With no table move a node is not worth its nominal depth: the ordering will
/// be poor either way.
pub open spec fn eased(f: Frame) -> Frame {
    if f.tt_move == Move(0) && f.depth >= 4 && !f.in_check {
        Frame {
            depth: (f.depth - 1 - if f.pv {
                1int
            } else {
                0
            }) as i32,
            ..f
        }
    } else {
        f
    }
}

/// Search a node: its score and what the search remembers afterwards.
pub open spec fn nega(
    w: World,
    p: Position,
    depth: int,
    alpha: int,
    beta: int,
    ply: int,
    cut: bool,
    pv: bool,
    ex: Move,
) -> (World, int)
    decreases
            128 - ply,
            if ex == Move(0) {
                1int
            } else {
                0
            },
            9int,
            0int,
{
    if depth <= 0 || ply < 0 {
        calm(w, p, alpha, beta, ply, pv)
    } else {
        let w1 = w.ticked().opened(ply).counted(ply);
        if ply > 0 && (p.drawn(ply) || p.bare()) {
            (w1, 0)
        } else if ply >= 127 {
            horizon(w1, p)
        } else {
            // A faster mate already found elsewhere makes a subtree irrelevant.
            let a = if ply == 0 {
                alpha
            } else {
                max(alpha, ply - 32_000)
            };
            let b = if ply == 0 {
                beta
            } else {
                min(beta, 31_999 - ply)
            };
            if ply > 0 && a >= b {
                (w1, a)
            } else {
                let w2 = w1.forgot(ply);
                let h = if ex == Move(0) {
                    w2.table.found(p.key, ply)
                } else {
                    None
                };
                if !pv && (h matches Some(x) && x.depth >= depth && settles(x, a, b)) {
                    (nudged(w2, p, h->0, depth, b, ply), h->0.score as int)
                } else {
                    let (w3, f) = framed(w2, p, depth, a, b, ply, cut, pv, ex, h);
                    node(w3, p, f)
                }
            }
        }
    }
}

/// A node that no table entry settles.
pub open spec fn node(w: World, p: Position, f: Frame) -> (World, int)
    decreases 128 - f.ply, f.whole(), 8int, 0int,
{
    let (w1, r) = shortcut(w, p, f);
    if r is Some {
        (w1, r->0)
    } else {
        tour(w1, p, eased(f))
    }
}

/// Whole-node pruning.
pub open spec fn shortcut(w: World, p: Position, f: Frame) -> (World, Option<int>)
    decreases 128 - f.ply, f.whole(), 7int, 0int,
{
    if f.pv || f.in_check || f.ex != Move(0) || geom::abs(f.beta as int) >= 31_872 {
        (w, None)
    } else if f.depth < 9 && f.eval - mind::margin_of(75) * f.depth + (if f.improving {
        mind::margin_of(60)
    } else {
        0
    }) >= f.beta {
        // So far ahead that even giving up material repeatedly would not drop
        // below beta.
        (w, Some(f.beta + eval::quot(f.eval - f.beta, 3)))
    } else {
        let (w1, r1) = razor(w, p, f);
        if r1 is Some {
            (w1, r1)
        } else {
            let (w2, r2) = pass(w1, p, f);
            if r2 is Some {
                (w2, r2)
            } else {
                prob(w2, p, f)
            }
        }
    }
}

/// So far behind that only a tactic saves the node: let quiescence look for one.
pub open spec fn razor(w: World, p: Position, f: Frame) -> (World, Option<int>)
    decreases 128 - f.ply, f.whole(), 6int, 0int,
{
    if f.depth <= 5 && f.eval + mind::margin_of(180) * f.depth < f.alpha {
        let (w1, v) = calm(w, p, f.alpha - 1, f.alpha as int, f.ply as int, false);
        (
            w1,
            if v < f.alpha {
                Some(v)
            } else {
                None
            },
        )
    } else {
        (w, None)
    }
}

/// Null move: give the opponent a free move; if the node is still above beta,
/// the real move will be at least as good. Not without pieces, where zugzwang
/// makes the assumption false.
pub open spec fn passes(w: World, p: Position, f: Frame) -> bool {
    &&& f.depth >= 3
    &&& f.eval >= f.beta
    &&& w.stack[if f.ply > 0 {
        f.ply - 1
    } else {
        0
    }].mv != Move(0)
    &&& p.color@[p.stm as int] & !(p.piece@[0] | p.piece@[5]) != 0
}

pub open spec fn pass(w: World, p: Position, f: Frame) -> (World, Option<int>)
    decreases 128 - f.ply, f.whole(), 6int, 0int,
{
    if passes(w, p, f) && f.ply < 127 {
        let r = 4 + f.depth / 3 + min(eval::quot(f.eval - f.beta, mind::margin_of(200)), 3);
        let (w1, v) = nega(
            w.stepped(f.ply as int, Move(0), 0),
            make::after_null(p),
            f.depth - r,
            -f.beta,
            1 - f.beta,
            f.ply + 1,
            !f.cut,
            false,
            Move(0),
        );
        (
            w1,
            if -v >= 31_872 {
                // Never an unproven mate from a null move.
                Some(f.beta as int)
            } else if -v >= f.beta {
                Some(-v)
            } else {
                None
            },
        )
    } else {
        (w, None)
    }
}

/// The raised bar of a probable cut.
pub open spec fn bar(f: Frame) -> int {
    f.beta + mind::margin_of(180)
}

/// Probable cut: if a capture beats a raised beta at a much reduced depth, the
/// full-depth search would almost certainly have beaten the real beta too. A
/// shallower table entry that already failed this test is enough to skip it.
pub open spec fn prob(w: World, p: Position, f: Frame) -> (World, Option<int>)
    decreases 128 - f.ply, f.whole(), 6int, 0int,
{
    if f.depth >= 5 && geom::abs(bar(f)) < 31_872 && !(f.tt_depth >= f.depth - 3 && f.tt_score
        < bar(f)) && f.ply < 127 {
        let l = menu(p, GenKind::Noisy);
        prob_from(w, p, f, l, w.ranks(p, l, f.tt_move, f.ply as int, -20), 0)
    } else {
        (w, None)
    }
}

/// The captures of a probable cut from a given one on. Each is sifted by
/// quiescence first.
pub open spec fn prob_from(w: World, p: Position, f: Frame, l: Seq<Move>, sc: Seq<i32>, i: int) -> (
    World,
    Option<int>,
)
    decreases 128 - f.ply, f.whole(), 5int, l.len() - i,
{
    if i < 0 || i >= l.len() || f.ply >= 127 {
        (w, None)
    } else {
        proof {
            movegen::lemma_best_upto(sc, i, l.len() as int);
        }
        let b = movegen::best_upto(sc, i, l.len() as int);
        let (l1, sc1) = (movegen::swapped(l, i, b), movegen::swapped(sc, i, b));
        let m = l1[i];
        if m == f.ex || see::see(p, m) < bar(f) - f.corrected {
            prob_from(w, p, f, l1, sc1, i + 1)
        } else {
            let q = make::after(p, m);
            let w1 = w.stepped(f.ply as int, m, learn::step_of(p, m));
            let (w2, x) = calm(w1, q, -bar(f), 1 - bar(f), f.ply + 1, false);
            let (w3, v) = if -x >= bar(f) {
                nega(
                    w2,
                    q,
                    f.depth - 4,
                    -bar(f),
                    1 - bar(f),
                    f.ply + 1,
                    !f.cut,
                    false,
                    Move(0),
                )
            } else {
                (w2, x)
            };
            if -v >= bar(f) {
                (w3.noted(p, m, -v, f.raw as int, f.depth - 3, 2, f.ply as int), Some(-v))
            } else {
                prob_from(w3, p, f, l1, sc1, i + 1)
            }
        }
    }
}

// ---------------------------------------------------------------------------
// The move loop
// ---------------------------------------------------------------------------

/// How far the moves of a node have been gone through.
pub struct Run {
    pub l: Seq<Move>,
    pub sc: Seq<i32>,
    pub i: int,
    pub alpha: int,
    pub best: int,
    pub best_move: Move,
    pub bound: int,
    /// Quiet moves already tried.
    pub quiets: Seq<Move>,
    /// Captures already tried.
    pub takes: Seq<Move>,
    pub played: int,
    /// Quiet moves are no longer looked at.
    pub skip: bool,
}

impl Run {
    /// The next move is picked.
    pub open spec fn picked(self) -> Run {
        let b = movegen::best_upto(self.sc, self.i, self.l.len() as int);
        Run {
            l: movegen::swapped(self.l, self.i, b),
            sc: movegen::swapped(self.sc, self.i, b),
            ..self
        }
    }

    /// `m` was searched without a cutoff.
    pub open spec fn tried(self, m: Move) -> Run {
        Run {
            played: self.played + 1,
            quiets: if mind::is_noisy(m) {
                self.quiets
            } else {
                self.quiets.push(m)
            },
            takes: if mind::is_noisy(m) {
                self.takes.push(m)
            } else {
                self.takes
            },
            ..self
        }
    }
}

/// Search the moves of a node.
pub open spec fn tour(w: World, p: Position, f: Frame) -> (World, int)
    decreases 128 - f.ply, f.whole(), 6int, 0int,
{
    let l = menu(p, GenKind::All);
    if l.len() == 0 {
        (
            w,
            if f.in_check {
                f.ply - 32_000
            } else {
                0
            },
        )
    } else {
        walk(
            w,
            p,
            f,
            Run {
                l,
                sc: w.ranks(p, l, f.tt_move, f.ply as int, -20),
                i: 0,
                alpha: f.alpha as int,
                best: -32_500,
                best_move: Move(0),
                bound: 1,
                quiets: Seq::empty(),
                takes: Seq::empty(),
                played: 0,
                skip: false,
            },
        )
    }
}

/// What to do with a move before it is searched.
#[derive(Clone, Copy, PartialEq, Eq, Structural)]
pub enum Fate {
    Keep,
    Skip,
    /// Neither this one nor any later quiet move.
    SkipQuiets,
}

/// The depth that is left of a late move.
pub open spec fn late_depth(w: World, f: Frame, played: int) -> int {
    max(f.depth - w.lmr[min(f.depth as int, 63) * 64 + min(played, 63)] / 1024, 0)
}

/// How many quiet moves a node looks at.
pub open spec fn quiet_cap(f: Frame) -> int {
    (3 + f.depth * f.depth) / if f.improving {
        1int
    } else {
        2
    }
}

/// Move-level pruning, only once a fallback score exists.
pub open spec fn fate(w: World, p: Position, f: Frame, alpha: int, best: int, played: int, m: Move) -> Fate {
    if f.ply == 0 || best <= -31_872 || f.in_check {
        Fate::Keep
    } else if mind::is_noisy(m) {
        if f.depth < 8 && see::see(p, m) < -95 * f.depth {
            Fate::Skip
        } else {
            Fate::Keep
        }
    } else if played >= quiet_cap(f) {
        // Deep in the ordered list at low depth, quiet moves almost never turn
        // out to be best.
        Fate::SkipQuiets
    } else {
        let d = late_depth(w, f, played);
        if d < 8 && f.eval + mind::margin_of(120) + mind::margin_of(110) * d <= alpha {
            // A quiet move cannot swing the score this far.
            Fate::SkipQuiets
        } else if d < 7 && see::see(p, m) < -25 * d * d {
            // Quiet moves that hang material are rarely the answer.
            Fate::Skip
        } else if d <= 3 && w.memory(p, m, f.ply as int) < -3200 * max(d, 1) {
            // A move the tables have watched fail this often, this close to the
            // horizon, is not worth a node.
            Fate::Skip
        } else {
            Fate::Keep
        }
    }
}

/// A move to be searched some plies deeper, or a node that is settled.
#[derive(Clone, Copy)]
pub enum Reach {
    By(i32),
    Cut(i32),
}

/// Extensions stop at twice the nominal depth.
pub open spec fn tether(w: World) -> int {
    let d = w.limits.depth;
    2 * if 0 <= d < 64 {
        d as int
    } else {
        64
    }
}

/// The table move of a node deep enough to ask whether it stands alone.
pub open spec fn alone(f: Frame, m: Move) -> bool {
    &&& m == f.tt_move
    &&& m != Move(0)
    &&& f.depth >= 8
    &&& f.ex == Move(0)
    &&& f.tt_depth >= f.depth - 3
    &&& f.tt_bound >= 2
    &&& geom::abs(f.tt_score as int) < 31_872
}

/// The window just below the table score.
pub open spec fn below(f: Frame) -> int {
    max(f.tt_score - f.depth * 2, -31_999)
}

/// How much further a move is searched. A singular extension searches every
/// other move against a window just below the table score: if they all fail
/// low, this move stands alone and is worth an extra ply.
pub open spec fn reach(w: World, p: Position, f: Frame, m: Move) -> (World, Reach)
    decreases 128 - f.ply, f.whole(), 3int, 0int,
{
    if f.ply == 0 || f.ply >= tether(w) {
        (w, Reach::By(0))
    } else if alone(f, m) {
        let s = below(f);
        let (w1, v) = nega(w, p, (f.depth - 1) / 2, s - 1, s, f.ply as int, f.cut, false, m);
        (
            w1,
            if v < s {
                Reach::By(
                    if !f.pv && v < s - 30 {
                        2
                    } else {
                        1
                    },
                )
            } else if s >= f.beta {
                // Several moves beat beta, so does this node.
                Reach::Cut(s as i32)
            } else if f.tt_score >= f.beta {
                Reach::By(-2i32)
            } else {
                Reach::By(0)
            },
        )
    } else {
        (
            w,
            Reach::By(
                if f.in_check {
                    1
                } else {
                    0
                },
            ),
        )
    }
}

/// A reduction is on the table for this move.
pub open spec fn may_reduce(f: Frame, played: int) -> bool {
    f.depth >= 2 && played >= if f.ply == 0 {
        3int
    } else {
        2
    }
}

/// 1024 where `b` holds.
pub open spec fn ply_if(b: bool) -> int {
    if b {
        1024
    } else {
        0
    }
}

/// The reduction of the move after `played` others, in 1/1024 plies.
pub open spec fn reduction(w: World, p: Position, f: Frame, played: int, m: Move, new_depth: int) -> int {
    if may_reduce(f, played) {
        // With a good history a move is reduced less, and vice versa; this is
        // where ordering pays for the pruning.
        mind::clamp(
            w.lmr[min(f.depth as int, 63) * 64 + min(played + 1, 63)] - ply_if(f.pv) - ply_if(
                f.improving,
            ) + 2 * ply_if(f.cut) - ply_if(checks::checking(p, m)) - ply_if(mind::is_noisy(m))
                + ply_if(f.tt_move == Move(0)) - eval::quot(
                w.memory(p, m, f.ply as int) * 1024,
                8192,
            ),
            0,
            max(new_depth - 1, 0) * 1024,
        )
    } else {
        0
    }
}

/// Search one move, `ext` plies deeper than usual. The first move gets the full
/// window; the rest are only shown not to be better, with a ladder of
/// re-searches for those that seem to be.
pub open spec fn attempt(
    w: World,
    p: Position,
    f: Frame,
    alpha: int,
    played: int,
    m: Move,
    ext: int,
) -> (World, int)
    decreases 128 - f.ply, f.whole(), 3int, 0int,
{
    if f.ply >= 127 {
        (w, 0)
    } else {
        let d = f.depth - 1 + ext;
        let q = make::after(p, m);
        let w1 = w.stepped(f.ply as int, m, learn::step_of(p, m));
        let ply = f.ply + 1;
        let beta = f.beta as int;
        if played == 0 {
            let (w2, v) = nega(w1, q, d, -beta, -alpha, ply, false, f.pv, Move(0));
            (w2, -v)
        } else {
            let rd = d - reduction(w, p, f, played, m, d) / 1024;
            let (w2, v2) = nega(w1, q, rd, -alpha - 1, -alpha, ply, true, false, Move(0));
            let (w3, v3) = if -v2 > alpha && rd < d {
                // The reduction was wrong; verify at full depth.
                nega(w2, q, d, -alpha - 1, -alpha, ply, !f.cut, false, Move(0))
            } else {
                (w2, v2)
            };
            if f.pv && alpha < -v3 < beta {
                let (w4, v4) = nega(w3, q, d, -beta, -alpha, ply, false, true, Move(0));
                (w4, -v4)
            } else {
                (w3, -v3)
            }
        }
    }
}

/// The moves of a node from a given one on.
pub open spec fn walk(w: World, p: Position, f: Frame, s: Run) -> (World, int)
    decreases 128 - f.ply, f.whole(), 4int, s.l.len() - s.i,
{
    if s.i < 0 || s.i >= s.l.len() {
        ended(w, p, f, s)
    } else {
        proof {
            movegen::lemma_best_upto(s.sc, s.i, s.l.len() as int);
        }
        let s1 = s.picked();
        let m = s1.l[s.i];
        let s2 = Run { i: s.i + 1, ..s1 };
        if m == f.ex || s.skip && !mind::is_noisy(m) && !m.pro() {
            walk(w, p, f, s2)
        } else {
            match fate(w, p, f, s.alpha, s.best, s.played, m) {
                Fate::Skip => walk(w, p, f, s2),
                Fate::SkipQuiets => walk(w, p, f, Run { skip: true, ..s2 }),
                Fate::Keep => {
                    let (w1, e) = reach(w, p, f, m);
                    match e {
                        Reach::Cut(v) => (w1, v as int),
                        Reach::By(x) => {
                            let (w2, v) = attempt(w1, p, f, s.alpha, s.played, m, x as int);
                            if v <= s.best {
                                walk(w2, p, f, s2.tried(m))
                            } else if v <= s.alpha {
                                walk(w2, p, f, Run { best: v, ..s2.tried(m) })
                            } else {
                                let w3 = if f.pv {
                                    w2.lined(f.ply as int, m)
                                } else {
                                    w2
                                };
                                if v < f.beta {
                                    walk(
                                        w3,
                                        p,
                                        f,
                                        Run {
                                            best: v,
                                            alpha: v,
                                            best_move: m,
                                            bound: 3,
                                            ..s2.tried(m)
                                        },
                                    )
                                } else {
                                    ended(
                                        w3.credited(
                                            p,
                                            m,
                                            f.ply as int,
                                            f.depth as int,
                                            s.quiets,
                                            s.takes,
                                        ),
                                        p,
                                        f,
                                        Run {
                                            best: v,
                                            alpha: v,
                                            best_move: m,
                                            bound: 2,
                                            played: s.played + 1,
                                            ..s2
                                        },
                                    )
                                }
                            }
                        },
                    }
                },
            }
        }
    }
}

/// A node measured its residual: not in check, not decided by a capture, and
/// not from a bound that points the wrong way to contradict the static
/// evaluation.
pub open spec fn measured(f: Frame, s: Run) -> bool {
    &&& !f.in_check
    &&& geom::abs(s.best) < 31_872
    &&& s.best_move == Move(0) || !mind::is_noisy(s.best_move)
    &&& !(s.bound == 2 && s.best <= f.corrected)
    &&& !(s.bound == 1 && s.best >= f.corrected)
}

/// What a node leaves behind once its moves are done.
pub open spec fn ended(w: World, p: Position, f: Frame, s: Run) -> (World, int) {
    if s.played == 0 {
        // Every move was the excluded one: report the window edge rather than a
        // mate score, which would be a lie.
        (
            w,
            if f.ex != Move(0) {
                s.alpha
            } else if f.in_check {
                f.ply - 32_000
            } else {
                0
            },
        )
    } else if f.ex != Move(0) {
        (w, s.best)
    } else {
        let w1 = w.noted(p, s.best_move, s.best, f.raw as int, f.depth as int, s.bound, f.ply as int);
        (
            if measured(f, s) {
                w1.taught(p, f.ply as int, s.best - f.corrected, f.depth as int)
            } else {
                w1
            },
            s.best,
        )
    }
}

} // verus!
