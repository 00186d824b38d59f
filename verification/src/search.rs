//! The main search.
//!
//! Everything below the move loop is ordered so the cheapest test that can
//! reject a move runs first.

use vstd::prelude::*;
use crate::host::Host;
use crate::eval::{INF, MATE, MATE_IN_MAX};
use crate::mind;
use crate::mind::{clamp_i32, margin, pos_is_noisy, Searcher};
use crate::movegen::{GenKind, Tried};
use crate::moves::Move;
use crate::pos::Position;
use crate::quiet;
use crate::quiet::{play, play_null, retract, retract_null};
use crate::see::see_ge;
use crate::tables::Tables;
use crate::tally;
use crate::tree;
use crate::tree::{Fate, Frame, Reach, Run};
use crate::tt::{Hit, BOUND_EXACT, BOUND_LOWER, BOUND_NONE, BOUND_UPPER};

verus! {

broadcast use {crate::host::group_heard, crate::tt::group_led};

/// The numbers of a frame are in range, and it is about `p`.
pub open spec fn sane(f: Frame, p: Position) -> bool {
    &&& 1 <= f.depth <= 110 + f.ply
    &&& f.ply <= 126
    &&& -32_500 <= f.alpha <= 32_500
    &&& -32_500 <= f.beta <= 32_500
    &&& f.ply == 0 ==> f.pv && f.ex == Move(0)
    &&& f.in_check == (p.checkers != 0)
    &&& -32_000 <= f.tt_score <= 32_000
    &&& -128 <= f.tt_depth <= 127
    &&& f.tt_bound < 4
    &&& -10_000_000 <= f.raw <= 10_000_000
    &&& -32_500 <= f.corrected <= 32_500
    &&& -32_500 <= f.eval <= 32_500
}

#[inline(always)]
fn ply_if(b: bool) -> (r: i32)
    ensures
        r == tree::ply_if(b),
        0 <= r <= 1024,
{
    if b {
        1024
    } else {
        0
    }
}

/// A tabled reduction adjusted to the node and the move.
fn shaved(f: &Frame, base: i32, gives: bool, noisy: bool, hist: i32, d: i32) -> (r: i32)
    requires
        0 <= base <= 20_000,
        -16_384 <= hist <= 16_384,
        -10 <= d <= 300,
    ensures
        r == mind::clamp(
            base - tree::ply_if(f.pv) - tree::ply_if(f.improving) + 2 * tree::ply_if(f.cut)
                - tree::ply_if(gives) - tree::ply_if(noisy) + tree::ply_if(f.tt_move == Move(0))
                - crate::eval::quot(hist * 1024, 8192),
            0,
            crate::clock::max(d - 1, 0) * 1024,
        ),
        0 <= r <= if d > 1 {
            (d - 1) * 1024
        } else {
            0
        },
{
    // No table move means the ordering here is guesswork, so the tail of the
    // list is worth even less than usual.
    let r = base - ply_if(f.pv) - ply_if(f.improving) + 2 * ply_if(f.cut) - ply_if(gives) - ply_if(
        noisy,
    ) + ply_if(f.tt_move.is_null()) - (hist * 1024) / 8192;
    let top = if d > 1 {
        (d - 1) * 1024
    } else {
        0
    };
    clamp_i32(r, 0, top)
}

impl Searcher {
    /// The line of the root starts with a move that can be played.
    pub open spec fn held(self, p: Position, ply: int) -> bool {
        ply == 0 ==> self.pv_len@[0] == 0 || quiet::fit(p, self.pv@[0])
    }

    /// The static evaluation of a node and what else is known of it.
    #[verifier::rlimit(40)]
    fn frame(
        &mut self,
        pos: &Position,
        t: &Tables,
        depth: i32,
        alpha: i32,
        beta: i32,
        ply: usize,
        cut: bool,
        pv: bool,
        ex: Move,
        hit: &Option<Hit>,
    ) -> (f: Frame)
        requires
            old(self).wf(),
            !old(self).stop,
            quiet::ready(*pos, ply as int),
            1 <= depth <= 110 + ply,
            ply <= 126,
            -32_500 <= alpha <= 32_500,
            -32_500 <= beta <= 32_500,
            ply == 0 ==> pv && ex == Move(0),
            hit matches Some(h) ==> {
                &&& 1 <= h.bound <= 3
                &&& -32_000 <= h.score <= 32_000
                &&& -32_768 <= h.eval <= 32_767
                &&& -128 <= h.depth <= 127
            },
        ensures
            final(self).went(*old(self)),
            final(self).steady(*old(self)),
            sane(f, *pos),
            f.ply == ply,
            f.ex == ex,
            f.depth == depth,
            f.pv == pv,
            (final(self)@, f) == tree::framed(
                old(self)@,
                *pos,
                depth as int,
                alpha as int,
                beta as int,
                ply as int,
                cut,
                pv,
                ex,
                *hit,
            ),
    {
        proof {
            quiet::lemma_basics(*pos, ply as int);
        }
        let in_check = pos.in_check();
        let (mut tt_move, mut tt_score, mut tt_depth, mut tt_bound): (Move, i32, i32, u8) = (
            Move::null(),
            0,
            -1,
            BOUND_NONE,
        );
        let mut told = false;
        let mut raw = -INF;
        if let Some(h) = hit {
            tt_move = h.mv;
            tt_score = h.score;
            tt_depth = h.depth;
            tt_bound = h.bound;
            if -MATE_IN_MAX < h.eval && h.eval < MATE_IN_MAX {
                told = true;
                if !in_check {
                    raw = h.eval;
                }
            }
        }
        if !in_check && !told {
            proof {
                quiet::lemma_sound(*pos, ply as int);
            }
            raw = self.assess(pos, t);
        }
        // What is stored is the evaluation before its correction, which is
        // derived again on every probe.
        let corrected = if in_check {
            -INF
        } else {
            self.corrected_eval(pos, ply, raw)
        };
        let eval = if !in_check && tt_bound != BOUND_NONE && -MATE_IN_MAX < tt_score && tt_score
            < MATE_IN_MAX && ((tt_bound == BOUND_LOWER && tt_score > corrected) || (tt_bound
            == BOUND_UPPER && tt_score < corrected) || tt_bound == BOUND_EXACT) {
            tt_score
        } else {
            corrected
        };
        self.mark_eval(ply, corrected);
        let improving = if in_check {
            false
        } else if ply >= 2 && self.stack[ply - 2].eval != -INF {
            corrected > self.stack[ply - 2].eval
        } else if ply >= 4 && self.stack[ply - 4].eval != -INF {
            corrected > self.stack[ply - 4].eval
        } else {
            true
        };
        Frame {
            depth,
            alpha,
            beta,
            ply,
            cut,
            pv,
            ex,
            in_check,
            tt_move,
            tt_score,
            tt_depth,
            tt_bound,
            raw,
            corrected,
            eval,
            improving,
        }
    }

    /// The depth that is left of a late move.
    fn late_depth(&self, f: &Frame, played: usize) -> (r: i32)
        requires
            self.wf(),
            1 <= f.depth <= 300,
        ensures
            r == tree::late_depth(self@, *f, played as int),
            0 <= r <= 300,
    {
        let d = self.depth_row(f) + if played < 63 {
            played
        } else {
            63
        };
        let x = f.depth - self.lmr[d] / 1024;
        if x < 0 {
            0
        } else {
            x
        }
    }

    fn depth_row(&self, f: &Frame) -> (r: usize)
        requires
            1 <= f.depth,
        ensures
            r == crate::clock::min(f.depth as int, 63) * 64,
            r <= 4032,
    {
        if f.depth < 63 {
            f.depth as usize * 64
        } else {
            63 * 64
        }
    }

    /// Move-level pruning.
    fn fate(
        &self,
        pos: &Position,
        t: &Tables,
        f: &Frame,
        alpha: i32,
        best: i32,
        played: usize,
        m: Move,
    ) -> (r: Fate)
        requires
            self.wf(),
            quiet::ready(*pos, f.ply as int),
            sane(*f, *pos),
            quiet::fit(*pos, m),
            -33_000 <= alpha <= 33_000,
        ensures
            r == tree::fate(
                self@,
                *pos,
                *f,
                alpha as int,
                best as int,
                played as int,
                m,
            ),
    {
        proof {
            quiet::lemma_basics(*pos, f.ply as int);
            quiet::lemma_fit(*pos, f.ply as int, m);
        }
        if f.ply == 0 || best <= -MATE_IN_MAX || f.in_check {
            return Fate::Keep;
        }
        if pos_is_noisy(m) {
            return if f.depth < 8 && !see_ge(pos, t, m, -95 * f.depth) {
                Fate::Skip
            } else {
                Fate::Keep
            };
        }
        let depth = f.depth;
        assert(1 <= depth * depth <= 90_000) by (nonlinear_arith)
            requires
                1 <= depth <= 300,
        ;
        let cap = (3 + depth * depth) / if f.improving {
            1
        } else {
            2
        };
        if played >= cap as usize {
            return Fate::SkipQuiets;
        }
        let d = self.late_depth(f, played);
        if d < 8 && f.eval + margin(120) + margin(110) * d <= alpha {
            return Fate::SkipQuiets;
        }
        if d < 7 {
            assert(0 <= d * d <= 49) by (nonlinear_arith)
                requires
                    0 <= d <= 7,
            ;
            assert(-25 * d * d == -25 * (d * d)) by (nonlinear_arith);
            assert(0 <= 25 * d <= 175);
            if !see_ge(pos, t, m, -25 * (d * d)) {
                return Fate::Skip;
            }
        }
        if d <= 3 {
            let k = if d < 1 {
                1
            } else {
                d
            };
            if (self.history_of(pos, m, f.ply) as i32) < -3200 * k {
                return Fate::Skip;
            }
        }
        Fate::Keep
    }

    /// The reduction of a late move, in 1/1024 plies.
    fn reduction(&self, pos: &Position, t: &Tables, f: &Frame, played: usize, m: Move, d: i32) -> (r:
        i32)
        requires
            self.wf(),
            quiet::ready(*pos, f.ply as int),
            sane(*f, *pos),
            quiet::fit(*pos, m),
            -10 <= d <= 300,
        ensures
            r == tree::reduction(self@, *pos, *f, played as int, m, d as int),
            0 <= r <= if d > 1 {
                (d - 1) * 1024
            } else {
                0
            },
    {
        let least: usize = if f.ply == 0 {
            3
        } else {
            2
        };
        if f.depth < 2 || played < least {
            return 0;
        }
        proof {
            quiet::lemma_basics(*pos, f.ply as int);
        }
        let col = if played < 62 {
            played + 1
        } else {
            63
        };
        let base = self.lmr[self.depth_row(f) + col];
        let gives = quiet::checks(pos, t, m, Ghost(f.ply as int));
        let hist = self.history_of(pos, m, f.ply) as i32;
        let noisy = pos_is_noisy(m);
        shaved(f, base, gives, noisy, hist, d)
    }
}

/// A result as a number.
pub open spec fn wide(r: Option<i32>) -> Option<int> {
    match r {
        Some(v) => Some(v as int),
        None => None,
    }
}

impl Searcher {
    /// What a part of a node's search leaves behind, finished or not.
    pub open spec fn ran(self, o: Searcher, p: Position, ply: int) -> bool {
        self.went(o) && self.spared(o, ply) && (o.held(p, ply) ==> self.held(p, ply))
    }

    /// Search a node. What was found only counts while the search was not
    /// stopped; the position is always handed back as it came.
    #[verifier::rlimit(60)]
    pub(crate) fn negamax<H: Host>(
        &mut self,
        pos: &mut Position,
        t: &Tables,
        host: &mut H,
        depth: i32,
        alpha: i32,
        beta: i32,
        ply: usize,
        cut_node: bool,
        pv_node: bool,
        ex: Move,
    ) -> (r: i32)
        requires
            old(self).wf(),
            quiet::ready(*old(pos), ply as int),
            ply <= 127,
            -1000 <= depth <= 110 + ply,
            -33_000 <= alpha <= 33_000,
            -33_000 <= beta <= 33_000,
            ply == 0 ==> pv_node && ex == Move(0) && -32_500 <= alpha <= 32_500 && -32_500 <= beta
                <= 32_500,
        ensures
            final(host).shown() == old(host).shown(),
            final(self).minded(*old(self), old(host).heard(), final(host).heard()),
            final(self).ran(*old(self), *old(pos), ply as int),
            depth > 0 && !final(self).stop ==> final(self).held(*old(pos), ply as int),
            *final(pos) == *old(pos),
            -10_000_000 <= r <= 10_000_000,
            !final(self).stop ==> (final(self)@, r as int) == tree::nega(
                old(self)@,
                *old(pos),
                depth as int,
                alpha as int,
                beta as int,
                ply as int,
                cut_node,
                pv_node,
                ex,
            ),
            final(self).cut_short(
                *old(self),
                tree::nega(
                    old(self)@,
                    *old(pos),
                    depth as int,
                    alpha as int,
                    beta as int,
                    ply as int,
                    cut_node,
                    pv_node,
                    ex,
                ).0,
            ),
        decreases
                128 - ply,
                if ex == Move(0) {
                    1int
                } else {
                    0
                },
                9int,
                0int,
    {
        if depth <= 0 {
            return self.qsearch(pos, t, host, alpha, beta, ply, pv_node);
        }
        proof {
            quiet::lemma_basics(*pos, ply as int);
        }
        self.check_stop(host);
        if self.stop {
            proof {
                if old(self).left_alone() {
                    tally::lemma_nega(
                        old(self)@,
                        *old(pos),
                        depth as int,
                        alpha as int,
                        beta as int,
                        ply as int,
                        cut_node,
                        pv_node,
                        ex,
                    );
                }
            }
            return 0;
        }
        self.open_line(ply);
        self.count(ply);
        let in_check = pos.in_check();
        let (mut lo, mut hi) = (alpha, beta);
        if ply > 0 {
            if pos.is_draw(ply) || pos.is_material_draw() {
                return 0;
            }
            if ply >= 127 {
                if in_check {
                    return 0;
                }
                proof {
                    quiet::lemma_sound(*pos, ply as int);
                }
                return self.assess(pos, t);
            }
            // A faster mate already found elsewhere makes this whole subtree
            // irrelevant.

            if lo < -MATE + ply as i32 {
                lo = -MATE + ply as i32;
            }
            if hi > MATE - ply as i32 - 1 {
                hi = MATE - ply as i32 - 1;
            }
            if lo >= hi {
                return lo;
            }
        }
        self.forget_killers(ply);
        let hit = if ex.is_null() {
            self.tt.probe(pos.key, ply)
        } else {
            None
        };
        if let Some(h) = &hit {
            if !pv_node && h.depth >= depth && (h.bound == BOUND_EXACT || (h.bound == BOUND_LOWER
                && h.score >= hi) || (h.bound == BOUND_UPPER && h.score <= lo)) {
                // A cutoff from the table still deserves a history nudge.
                if h.score >= hi && !h.mv.is_null() && !pos_is_noisy(h.mv) {
                    self.bonus_quiet(pos, h.mv, ply, depth * 100);
                }
                return h.score;
            }
        }
        // The table move is only ever compared against generated moves, never
        // made, so a colliding entry can cost a little ordering quality at most.

        let f = self.frame(pos, t, depth, lo, hi, ply, cut_node, pv_node, ex, &hit);
        self.node(pos, t, host, &f)
    }

    /// A node that no table entry settles.
    fn node<H: Host>(&mut self, pos: &mut Position, t: &Tables, host: &mut H, f: &Frame) -> (r: i32)
        requires
            old(self).wf(),
            !old(self).stop,
            quiet::ready(*old(pos), f.ply as int),
            sane(*f, *old(pos)),
        ensures
            final(host).shown() == old(host).shown(),
            final(self).minded(*old(self), old(host).heard(), final(host).heard()),
            final(self).ran(*old(self), *old(pos), f.ply as int),
            *final(pos) == *old(pos),
            -10_000_000 <= r <= 10_000_000,
            !final(self).stop ==> (final(self)@, r as int) == tree::node(old(self)@, *old(pos), *f),
            final(self).cut_short(*old(self), tree::node(old(self)@, *old(pos), *f).0),
        decreases 128 - f.ply, f.whole(), 8int, 0int,
    {
        proof {
            if self.left_alone() {
                tally::lemma_node(self@, *pos, *f);
            }
        }
        match self.shortcut(pos, t, host, f) {
            Some(v) => v,
            None => {
                if self.stop {
                    return 0;
                }
                // With no table move, this node is not worth its nominal depth.
                let mut g = *f;
                if f.tt_move.is_null() && f.depth >= 4 && !f.in_check {
                    g.depth = f.depth - 1 - if f.pv {
                        1
                    } else {
                        0
                    };
                }
                self.tour(pos, t, host, &g)
            },
        }
    }

    /// Whole-node pruning.
    fn shortcut<H: Host>(
        &mut self,
        pos: &mut Position,
        t: &Tables,
        host: &mut H,
        f: &Frame,
    ) -> (r: Option<i32>)
        requires
            old(self).wf(),
            !old(self).stop,
            quiet::ready(*old(pos), f.ply as int),
            sane(*f, *old(pos)),
        ensures
            final(host).shown() == old(host).shown(),
            final(self).minded(*old(self), old(host).heard(), final(host).heard()),
            final(self).ran(*old(self), *old(pos), f.ply as int),
            *final(pos) == *old(pos),
            r matches Some(v) ==> -10_000_000 <= v <= 10_000_000,
            !final(self).stop ==> (final(self)@, wide(r)) == tree::shortcut(
                old(self)@,
                *old(pos),
                *f,
            ),
            final(self).cut_short(*old(self), tree::shortcut(old(self)@, *old(pos), *f).0),
        decreases 128 - f.ply, f.whole(), 7int, 0int,
    {
        proof {
            if self.left_alone() {
                tally::lemma_shortcut(self@, *pos, *f);
            }
        }
        let beta = f.beta;
        if f.pv || f.in_check || !f.ex.is_null() || beta <= -MATE_IN_MAX || beta >= MATE_IN_MAX {
            return None;
        }
        if f.depth < 9 && f.eval - margin(75) * f.depth + (if f.improving {
            margin(60)
        } else {
            0
        }) >= beta {
            return Some(beta + (f.eval - beta) / 3);
        }
        if f.depth <= 5 && f.eval + margin(180) * f.depth < f.alpha {
            let v = self.qsearch(pos, t, host, f.alpha - 1, f.alpha, f.ply, false);
            if v < f.alpha {
                return Some(v);
            }
            if self.stop {
                return None;
            }
        }
        let r = self.pass(pos, t, host, f);
        if r.is_some() || self.stop {
            return r;
        }
        self.prob(pos, t, host, f)
    }

    /// Null-move pruning.
    fn pass<H: Host>(
        &mut self,
        pos: &mut Position,
        t: &Tables,
        host: &mut H,
        f: &Frame,
    ) -> (r: Option<i32>)
        requires
            old(self).wf(),
            !old(self).stop,
            quiet::ready(*old(pos), f.ply as int),
            sane(*f, *old(pos)),
            !f.in_check,
            f.ply > 0,
            -31_872 < f.beta < 31_872,
        ensures
            final(host).shown() == old(host).shown(),
            final(self).minded(*old(self), old(host).heard(), final(host).heard()),
            final(self).ran(*old(self), *old(pos), f.ply as int),
            *final(pos) == *old(pos),
            r matches Some(v) ==> -10_000_000 <= v <= 10_000_000,
            !final(self).stop ==> (final(self)@, wide(r)) == tree::pass(old(self)@, *old(pos), *f),
            final(self).cut_short(*old(self), tree::pass(old(self)@, *old(pos), *f).0),
        decreases 128 - f.ply, f.whole(), 6int, 0int,
    {
        let (ply, beta) = (f.ply, f.beta);
        proof {
            quiet::lemma_basics(*pos, ply as int);
        }
        if !(f.depth >= 3 && f.eval >= beta && !self.stack[ply - 1].mv.is_null()
            && pos.has_big_pieces(pos.stm)) {
            return None;
        }
        let gap = (f.eval - beta) / margin(200);
        let r = 4 + f.depth / 3 + if gap < 3 {
            gap
        } else {
            3
        };
        let ghost p = *pos;
        play_null(pos, t, Ghost(ply as int));
        self.step(ply, Move::null(), 0);
        let v = -self.negamax(
            pos,
            t,
            host,
            f.depth - r,
            -beta,
            1 - beta,
            ply + 1,
            !f.cut,
            false,
            Move::null(),
        );
        retract_null(pos, Ghost(p), Ghost(ply as int));
        if self.stop {
            return None;
        }
        if v >= MATE_IN_MAX {
            Some(beta)
        } else if v >= beta {
            Some(v)
        } else {
            None
        }
    }

    /// Probable cuts.
    fn prob<H: Host>(
        &mut self,
        pos: &mut Position,
        t: &Tables,
        host: &mut H,
        f: &Frame,
    ) -> (r: Option<i32>)
        requires
            old(self).wf(),
            !old(self).stop,
            quiet::ready(*old(pos), f.ply as int),
            sane(*f, *old(pos)),
            f.ply > 0,
        ensures
            final(host).shown() == old(host).shown(),
            final(self).minded(*old(self), old(host).heard(), final(host).heard()),
            final(self).ran(*old(self), *old(pos), f.ply as int),
            *final(pos) == *old(pos),
            r matches Some(v) ==> -10_000_000 <= v <= 10_000_000,
            !final(self).stop ==> (final(self)@, wide(r)) == tree::prob(old(self)@, *old(pos), *f),
            final(self).cut_short(*old(self), tree::prob(old(self)@, *old(pos), *f).0),
        decreases 128 - f.ply, f.whole(), 6int, 0int,
    {
        let ply = f.ply;
        let bar = f.beta + margin(180);
        if !(f.depth >= 5 && -MATE_IN_MAX < bar && bar < MATE_IN_MAX && !(f.tt_depth >= f.depth - 3
            && f.tt_score < bar)) {
            return None;
        }
        let ghost p = *pos;
        let mut list = self.ranked(pos, t, GenKind::Noisy, f.tt_move, ply, -20);
        let ghost goal = tree::prob(old(self)@, p, *f);
        let mut i: usize = 0;
        while i < list.n
            invariant
                host.shown() == old(host).shown(),
                self.minded(*old(self), old(host).heard(), host.heard()),
                self.ran(*old(self), p, ply as int),
                !self.stop,
                *pos == p,
                *old(pos) == p,
                quiet::ready(p, ply as int),
                sane(*f, p),
                ply == f.ply,
                ply > 0,
                bar == tree::bar(*f),
                -31_872 < bar < 31_872,
                f.depth >= 5,
                list.wf(),
                i <= list.n,
                quiet::all_fit(p, list@),
                goal == tree::prob_from(self@, p, *f, list@, list.sc@, i as int),
                goal == tree::prob(old(self)@, p, *f),
            decreases list.n - i,
        {
            proof {
                if old(self).left_alone() {
                    tally::lemma_prob_from(self@, p, *f, list@, list.sc@, i as int);
                }
            }
            let m = list.pick(i);
            i = i + 1;
            proof {
                quiet::lemma_fit(p, ply as int, m);
                quiet::lemma_basics(p, ply as int);
            }
            // The capture has to be able to reach the raised beta on material
            // alone before it is worth a node.
            if m == f.ex || !see_ge(pos, t, m, bar - f.corrected) {
                continue ;
            }
            let step = self.step_index(pos, m);
            play(pos, t, m, Ghost(ply as int));
            self.step(ply, m, step);
            let mut v = -self.qsearch(pos, t, host, -bar, 1 - bar, ply + 1, false);
            if v >= bar {
                v = -self.negamax(
                    pos,
                    t,
                    host,
                    f.depth - 4,
                    -bar,
                    1 - bar,
                    ply + 1,
                    !f.cut,
                    false,
                    Move::null(),
                );
            }
            retract(pos, m, Ghost(p), Ghost(ply as int));
            if self.stop {
                return None;
            }
            if v >= bar {
                self.note(pos, m, v, f.raw, f.depth - 3, BOUND_LOWER, ply);
                return Some(v);
            }
        }
        None
    }

    /// How much further a move is searched.
    fn reach<H: Host>(
        &mut self,
        pos: &mut Position,
        t: &Tables,
        host: &mut H,
        f: &Frame,
        m: Move,
    ) -> (r: Reach)
        requires
            old(self).wf(),
            quiet::ready(*old(pos), f.ply as int),
            sane(*f, *old(pos)),
            m != Move(0),
        ensures
            final(host).shown() == old(host).shown(),
            final(self).minded(*old(self), old(host).heard(), final(host).heard()),
            final(self).ran(*old(self), *old(pos), f.ply as int),
            *final(pos) == *old(pos),
            r matches Reach::By(x) ==> -2 <= x <= 2,
            r matches Reach::Cut(v) ==> -10_000_000 <= v <= 10_000_000,
            !final(self).stop ==> (final(self)@, r) == tree::reach(
                old(self)@,
                *old(pos),
                *f,
                m,
            ),
            final(self).cut_short(*old(self), tree::reach(old(self)@, *old(pos), *f, m).0),
        decreases 128 - f.ply, f.whole(), 3int, 0int,
    {
        let d = self.limits.depth;
        let tether: usize = if 0 <= d && d < 64 {
            2 * (d as usize)
        } else {
            128
        };
        if f.ply == 0 || f.ply >= tether {
            return Reach::By(0);
        }
        if m == f.tt_move && f.depth >= 8 && f.ex.is_null() && f.tt_depth >= f.depth - 3 && (
        f.tt_bound == BOUND_LOWER || f.tt_bound == BOUND_EXACT) && -MATE_IN_MAX < f.tt_score
            && f.tt_score < MATE_IN_MAX {
            let s = if f.tt_score - f.depth * 2 < -MATE + 1 {
                -MATE + 1
            } else {
                f.tt_score - f.depth * 2
            };
            let v = self.negamax(
                pos,
                t,
                host,
                (f.depth - 1) / 2,
                s - 1,
                s,
                f.ply,
                f.cut,
                false,
                m,
            );
            if v < s {
                Reach::By(
                    if !f.pv && v < s - 30 {
                        2
                    } else {
                        1
                    },
                )
            } else if s >= f.beta {
                Reach::Cut(s)
            } else if f.tt_score >= f.beta {
                Reach::By(-2)
            } else {
                Reach::By(0)
            }
        } else if f.in_check {
            Reach::By(1)
        } else {
            Reach::By(0)
        }
    }

    /// Search one move.
    fn attempt<H: Host>(
        &mut self,
        pos: &mut Position,
        t: &Tables,
        host: &mut H,
        f: &Frame,
        alpha: i32,
        played: usize,
        m: Move,
        ext: i32,
    ) -> (r: i32)
        requires
            old(self).wf(),
            !old(self).stop,
            quiet::ready(*old(pos), f.ply as int),
            sane(*f, *old(pos)),
            quiet::fit(*old(pos), m),
            -32_500 <= alpha <= 32_500,
            -2 <= ext <= 2,
        ensures
            final(host).shown() == old(host).shown(),
            final(self).minded(*old(self), old(host).heard(), final(host).heard()),
            final(self).ran(*old(self), *old(pos), f.ply as int),
            *final(pos) == *old(pos),
            -10_000_000 <= r <= 10_000_000,
            !final(self).stop ==> (final(self)@, r as int) == tree::attempt(
                old(self)@,
                *old(pos),
                *f,
                alpha as int,
                played as int,
                m,
                ext as int,
            ),
            final(self).cut_short(
                *old(self),
                tree::attempt(
                    old(self)@,
                    *old(pos),
                    *f,
                    alpha as int,
                    played as int,
                    m,
                    ext as int,
                ).0,
            ),
        decreases 128 - f.ply, f.whole(), 3int, 0int,
    {
        let (ply, beta) = (f.ply, f.beta);
        let d = f.depth - 1 + ext;
        let ghost p = *pos;
        proof {
            if self.left_alone() {
                tally::lemma_attempt(self@, p, *f, alpha as int, played as int, m, ext as int);
            }
            quiet::lemma_basics(p, ply as int);
        }
        let less = if played == 0 {
            0
        } else {
            self.reduction(pos, t, f, played, m, d) / 1024
        };
        let step = self.step_index(pos, m);
        play(pos, t, m, Ghost(ply as int));
        self.step(ply, m, step);
        let mut v;
        if played == 0 {
            // The first move gets the full window.
            v = -self.negamax(pos, t, host, d, -beta, -alpha, ply + 1, false, f.pv, Move::null());
        } else {
            let rd = d - less;
            v = -self.negamax(pos, t, host, rd, -alpha - 1, -alpha, ply + 1, true, false, Move::null());
            if v > alpha && rd < d {
                // The reduction was wrong; verify at full depth.
                v = -self.negamax(
                    pos,
                    t,
                    host,
                    d,
                    -alpha - 1,
                    -alpha,
                    ply + 1,
                    !f.cut,
                    false,
                    Move::null(),
                );
            }
            if f.pv && v > alpha && v < beta {
                v = -self.negamax(pos, t, host, d, -beta, -alpha, ply + 1, false, true, Move::null());
            }
        }
        retract(pos, m, Ghost(p), Ghost(ply as int));
        v
    }
}

impl Searcher {
    /// Search the moves of a node.
    #[verifier::rlimit(60)]
    fn tour<H: Host>(&mut self, pos: &mut Position, t: &Tables, host: &mut H, f: &Frame) -> (r: i32)
        requires
            old(self).wf(),
            !old(self).stop,
            quiet::ready(*old(pos), f.ply as int),
            sane(*f, *old(pos)),
        ensures
            final(host).shown() == old(host).shown(),
            final(self).minded(*old(self), old(host).heard(), final(host).heard()),
            final(self).ran(*old(self), *old(pos), f.ply as int),
            *final(pos) == *old(pos),
            -10_000_000 <= r <= 10_000_000,
            !final(self).stop ==> (final(self)@, r as int) == tree::tour(old(self)@, *old(pos), *f),
            final(self).cut_short(*old(self), tree::tour(old(self)@, *old(pos), *f).0),
        decreases 128 - f.ply, f.whole(), 6int, 0int,
    {
        let ply = f.ply;
        let ghost p = *pos;
        let ghost goal = tree::tour(self@, p, *f);
        let mut list = self.ranked(pos, t, GenKind::All, f.tt_move, ply, -20);
        if list.n == 0 {
            return if f.in_check {
                -MATE + ply as i32
            } else {
                0
            };
        }
        let mut alpha = f.alpha;
        let mut best = -INF;
        let mut best_move = Move::null();
        let mut bound = BOUND_UPPER;
        let mut quiets = Tried::new();
        let mut takes = Tried::new();
        let mut played: usize = 0;
        let mut skip = false;
        let mut i: usize = 0;
        while i < list.n
            invariant
                host.shown() == old(host).shown(),
                self.minded(*old(self), old(host).heard(), host.heard()),
                self.ran(*old(self), p, ply as int),
                !self.stop,
                *pos == p,
                *old(pos) == p,
                quiet::ready(p, ply as int),
                sane(*f, p),
                ply == f.ply,
                list.wf(),
                played <= i <= list.n,
                quiet::all_fit(p, list@),
                -32_500 <= alpha <= 32_500,
                -10_000_000 <= best <= 10_000_000,
                bound < 4,
                goal == tree::walk(
                    self@,
                    p,
                    *f,
                    (Run {
                        l: list@,
                        sc: list.sc@,
                        i: i as int,
                        alpha: alpha as int,
                        best: best as int,
                        best_move,
                        bound: bound as int,
                        quiets: quiets@,
                        takes: takes@,
                        played: played as int,
                        skip,
                    }),
                ),
                goal == tree::tour(old(self)@, p, *f),
            decreases list.n - i,
        {
            let ghost s0 = Run {
                l: list@,
                sc: list.sc@,
                i: i as int,
                alpha: alpha as int,
                best: best as int,
                best_move,
                bound: bound as int,
                quiets: quiets@,
                takes: takes@,
                played: played as int,
                skip,
            };
            let m = list.pick(i);
            i = i + 1;
            proof {
                assert(s0.picked().l == list@ && s0.picked().sc == list.sc@);
                quiet::lemma_fit(p, ply as int, m);
                quiet::lemma_basics(p, ply as int);
            }
            let noisy = pos_is_noisy(m);
            if m == f.ex || (skip && !noisy && !m.is_promo()) {
                continue ;
            }
            match self.fate(pos, t, f, alpha, best, played, m) {
                Fate::Skip => {
                    continue ;
                },
                Fate::SkipQuiets => {
                    skip = true;
                    continue ;
                },
                Fate::Keep => {},
            }
            proof {
                if old(self).left_alone() {
                    tally::lemma_walk(self@, p, *f, s0);
                }
            }
            let e = self.reach(pos, t, host, f, m);
            if self.stop {
                return 0;
            }
            let ext = match e {
                Reach::Cut(v) => {
                    return v;
                },
                Reach::By(x) => x,
            };
            let score = self.attempt(pos, t, host, f, alpha, played, m, ext);
            if self.stop {
                return 0;
            }
            played = played + 1;
            if score > best {
                best = score;
                if score > alpha {
                    best_move = m;
                    if f.pv {
                        self.update_pv(ply, m);
                    }
                    if score >= f.beta {
                        self.update_histories(pos, m, ply, f.depth, &quiets, &takes);
                        return self.finish(
                            pos,
                            f,
                            score,
                            score,
                            m,
                            BOUND_LOWER,
                            played,
                            Ghost(Run {
                                best: score as int,
                                alpha: score as int,
                                best_move: m,
                                bound: 2,
                                played: played as int,
                                i: i as int,
                                ..s0.picked()
                            }),
                        );
                    }
                    alpha = score;
                    bound = BOUND_EXACT;
                }
            }
            if noisy {
                takes.push(m);
            } else {
                quiets.push(m);
            }
        }
        let ghost s = Run {
            l: list@,
            sc: list.sc@,
            i: i as int,
            alpha: alpha as int,
            best: best as int,
            best_move,
            bound: bound as int,
            quiets: quiets@,
            takes: takes@,
            played: played as int,
            skip,
        };
        self.finish(pos, f, alpha, best, best_move, bound, played, Ghost(s))
    }

    /// What a node leaves behind once its moves are done.
    fn finish(
        &mut self,
        pos: &Position,
        f: &Frame,
        alpha: i32,
        best: i32,
        best_move: Move,
        bound: u8,
        played: usize,
        Ghost(s): Ghost<Run>,
    ) -> (r: i32)
        requires
            old(self).wf(),
            !old(self).stop,
            quiet::ready(*pos, f.ply as int),
            sane(*f, *pos),
            -10_000_000 <= alpha <= 10_000_000,
            -10_000_000 <= best <= 10_000_000,
            bound < 4,
            s.alpha == alpha,
            s.best == best,
            s.best_move == best_move,
            s.bound == bound,
            s.played == played,
        ensures
            final(self).went(*old(self)),
            final(self).steady(*old(self)),
            -10_000_000 <= r <= 10_000_000,
            (final(self)@, r as int) == tree::ended(old(self)@, *pos, *f, s),
    {
        proof {
            quiet::lemma_basics(*pos, f.ply as int);
        }
        if played == 0 {
            // Every move was the excluded one: report the window edge rather
            // than a mate score, which would be a lie.
            return if !f.ex.is_null() {
                alpha
            } else if f.in_check {
                -MATE + f.ply as i32
            } else {
                0
            };
        }
        if f.ex.is_null() {
            self.note(pos, best_move, best, f.raw, f.depth, bound, f.ply);
            if !f.in_check && -MATE_IN_MAX < best && best < MATE_IN_MAX && (best_move.is_null()
                || !pos_is_noisy(best_move)) && !(bound == BOUND_LOWER && best <= f.corrected) && !(
            bound == BOUND_UPPER && best >= f.corrected) {
                self.update_corr(pos, f.ply, best - f.corrected, f.depth);
            }
        }
        best
    }
}

} // verus!
