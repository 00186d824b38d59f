//! The tables the search learns from: histories, killers, corrections, and the
//! move ordering built on them.

use vstd::prelude::*;
use crate::eval;
use crate::eval::{evaluate, SEE_VAL};
use crate::geom;
use crate::mind::{
    clamp_i32, pc_index, pos_is_noisy, Node, Searcher, World, CONT_N, CORR_CLAMP, CORR_GRAIN, CORR_MAX,
    CORR_N, MAX_HIST,
};
use crate::mind;
use crate::moves::Move;
use crate::movegen::{MoveList, Tried};
use crate::pos;
use crate::pos::{Position, PAWN_P, QUEEN_P};
use crate::rules;
use crate::see;
use crate::see::see_ge;
use crate::tables::Tables;

verus! {

broadcast use crate::tt::group_led;

// ---------------------------------------------------------------------------
// Corrections to the static evaluation
// ---------------------------------------------------------------------------

pub open spec fn corr_at(stm: int, key: u64) -> int {
    stm * 16_384 + key % 16_384
}

/// An entry with a residual blended in. Deeper searches were more certain about
/// their score, so they move entries further; the gravity term keeps a
/// saturated entry responsive.
pub open spec fn blended(e: int, diff: int, depth: int) -> int {
    let weight = eval::min(depth + 1, 16);
    mind::clamp(
        eval::quot(e * (256 - weight) + mind::clamp(diff, -256, 256) * 256 * weight, 256),
        -12_288,
        12_288,
    )
}

impl World {
    /// What the correction tables say of a position. Pawn structure carries the
    /// most signal, so it carries the most weight.
    pub open spec fn correction(self, p: Position, ply: int) -> int {
        let s = p.stm as int;
        let prev = self.prev(ply, 1);
        let c = eval::quot(self.corr_pawn[corr_at(s, p.pawn_key)] * 3, 2) + self.corr_np[corr_at(
            s,
            p.np_key,
        )] + if prev != 0 {
            self.corr_cont[s * 769 + prev] as int
        } else {
            0
        };
        mind::clamp(eval::quot(c, 512), -72, 72)
    }

    /// The static evaluation after the correction tables have had their say.
    #[verifier::opaque]
    pub open spec fn corrected(self, p: Position, ply: int, raw: int) -> int {
        mind::clamp(raw + self.correction(p, ply), -31_871, 31_871)
    }

    /// The residual of a node blended into every table that indexed it.
    #[verifier::opaque]
    pub open spec fn taught(self, p: Position, ply: int, diff: int, depth: int) -> World {
        let s = p.stm as int;
        let (i, j, prev) = (corr_at(s, p.pawn_key), corr_at(s, p.np_key), self.prev(ply, 1));
        World {
            corr_pawn: self.corr_pawn.update(
                i,
                blended(self.corr_pawn[i] as int, diff, depth) as i32,
            ),
            corr_np: self.corr_np.update(j, blended(self.corr_np[j] as int, diff, depth) as i32),
            corr_cont: if prev != 0 {
                self.corr_cont.update(
                    s * 769 + prev,
                    blended(self.corr_cont[s * 769 + prev] as int, diff, depth) as i32,
                )
            } else {
                self.corr_cont
            },
            ..self
        }
    }
}

fn blend(e: i32, diff: i32, depth: i32) -> (r: i32)
    requires
        -12_288 <= e <= 12_288,
        0 <= depth <= 1000,
    ensures
        r == blended(e as int, diff as int, depth as int),
        -12_288 <= r <= 12_288,
{
    let weight = if depth + 1 < 16 {
        depth + 1
    } else {
        16
    };
    let scaled = clamp_i32(diff, -256, 256) * CORR_GRAIN;
    assert(-12_288 * 256 <= e * (256 - weight) <= 12_288 * 256) by (nonlinear_arith)
        requires
            -12_288 <= e <= 12_288,
            1 <= weight <= 16,
    ;
    assert(-65_536 * 16 <= scaled * weight <= 65_536 * 16) by (nonlinear_arith)
        requires
            -65_536 <= scaled <= 65_536,
            1 <= weight <= 16,
    ;
    clamp_i32((e * (256 - weight) + scaled * weight) / 256, -CORR_MAX, CORR_MAX)
}

impl Searcher {
    /// The move `back` plies before `ply`, as an index; 0 if there is none.
    #[inline(always)]
    fn prev_at(&self, ply: usize, back: usize) -> (r: usize)
        requires
            self.wf(),
            ply < 136,
            1 <= back,
        ensures
            r == self@.prev(ply as int, back as int),
            r <= 768,
    {
        if ply >= back {
            self.stack[ply - back].piece_to
        } else {
            0
        }
    }

    #[inline(always)]
    pub fn corrected_eval(&self, pos: &Position, ply: usize, raw: i32) -> (r: i32)
        requires
            self.wf(),
            pos.stm < 2,
            ply < 136,
        ensures
            r == self@.corrected(*pos, ply as int, raw as int),
            -31_871 <= r <= 31_871,
    {
        proof {
            reveal(World::corrected);
        }
        let stm = pos.stm;
        let i = stm * CORR_N + (pos.pawn_key % 16_384) as usize;
        let j = stm * CORR_N + (pos.np_key % 16_384) as usize;
        let mut c = self.corr_pawn[i] * 3 / 2;
        c = c + self.corr_np[j];
        let prev = self.prev_at(ply, 1);
        if prev != 0 {
            c = c + self.corr_cont[stm * CONT_N + prev];
        }
        let c = clamp_i32(c / (CORR_GRAIN * 2), -CORR_CLAMP, CORR_CLAMP);
        clamp_i32(clamp_i32(raw, -1_000_000, 1_000_000) + c, -31_871, 31_871)
    }

    #[inline(always)]
    pub fn update_corr(&mut self, pos: &Position, ply: usize, diff: i32, depth: i32)
        requires
            old(self).wf(),
            pos.stm < 2,
            ply < 136,
            0 <= depth <= 1000,
        ensures
            final(self).wf(),
            final(self)@ == old(self)@.taught(*pos, ply as int, diff as int, depth as int),
            final(self).kept(*old(self)),
            final(self).steady(*old(self)),
    {
        proof {
            reveal(World::taught);
        }
        let stm = pos.stm;
        let i = stm * CORR_N + (pos.pawn_key % 16_384) as usize;
        let j = stm * CORR_N + (pos.np_key % 16_384) as usize;
        let prev = self.prev_at(ply, 1);
        let x = blend(self.corr_pawn[i], diff, depth);
        self.corr_pawn.set(i, x);
        let y = blend(self.corr_np[j], diff, depth);
        self.corr_np.set(j, y);
        if prev != 0 {
            let k = stm * CONT_N + prev;
            let z = blend(self.corr_cont[k], diff, depth);
            self.corr_cont.set(k, z);
        }
        proof {
            assert(self@ =~= old(self)@.taught(*pos, ply as int, diff as int, depth as int));
        }
    }
}

// ---------------------------------------------------------------------------
// Histories
// ---------------------------------------------------------------------------

/// Gravity update: values saturate toward the limit instead of drifting, so a
/// table that has seen a million updates still responds to new ones.
pub open spec fn pulled(v: int, bonus: int) -> int {
    let b = mind::clamp(bonus, -1200, 1200);
    v + b - eval::quot(v * geom::abs(b), 16_384)
}

/// A history value never leaves its range, whatever is added.
pub proof fn law_gravity_is_bounded(v: int, bonus: int)
    requires
        -16_384 <= v <= 16_384,
    ensures
        -16_384 <= pulled(v, bonus) <= 16_384,
{
    let b = mind::clamp(bonus, -1200, 1200);
    let a = geom::abs(b);
    let x = v * a;
    if v >= 0 {
        assert(0 <= x <= 16_384 * a && x == v * a) by (nonlinear_arith)
            requires
                0 <= v <= 16_384,
                0 <= a,
                x == v * a,
        ;
        // What is taken away is at least the share of the distance already
        // covered.
        assert(v * a >= 16_384 * (v + a - 16_384)) by (nonlinear_arith)
            requires
                0 <= v <= 16_384,
                0 <= a <= 1200,
        ;
    } else {
        let w = -v;
        assert(x == -(w * a)) by (nonlinear_arith)
            requires
                x == v * a,
                w == -v,
        ;
        assert(0 <= w * a <= 16_384 * a) by (nonlinear_arith)
            requires
                0 <= w <= 16_384,
                0 <= a,
        ;
        assert(w * a >= 16_384 * (w + a - 16_384)) by (nonlinear_arith)
            requires
                0 <= w <= 16_384,
                0 <= a <= 1200,
        ;
    }
}

#[inline(always)]
fn gravity(v: i16, bonus: i32) -> (r: i16)
    requires
        -16_384 <= v <= 16_384,
    ensures
        r == pulled(v as int, bonus as int),
        -16_384 <= r <= 16_384,
{
    let b = clamp_i32(bonus, -1200, 1200);
    let cur = v as i32;
    let a = if b < 0 {
        -b
    } else {
        b
    };
    proof {
        law_gravity_is_bounded(v as int, bonus as int);
    }
    assert(-16_384 * 1200 <= cur * a <= 16_384 * 1200) by (nonlinear_arith)
        requires
            -16_384 <= cur <= 16_384,
            0 <= a <= 1200,
    ;
    (cur + b - cur * a / MAX_HIST) as i16
}

/// The piece that `m` moves, as a table index.
pub open spec fn mover(p: Position, m: Move) -> int {
    mind::piece_index(p.stm as int, p.mailbox@[m.f()] as int)
}

pub open spec fn hist_at(p: Position, m: Move) -> int {
    p.stm * 4096 + m.f() * 64 + m.t()
}

/// `m` as an index of the continuation tables.
pub open spec fn step_of(p: Position, m: Move) -> int {
    mover(p, m) * 64 + m.t() + 1
}

pub open spec fn cont_at(k: int, prev: int, step: int) -> int {
    (k * 769 + prev) * 769 + step
}

pub open spec fn capt_at(p: Position, m: Move) -> int {
    (mover(p, m) * 64 + m.t()) * 7 + see::taken(p, m)
}

impl World {
    /// A quiet move rewarded or punished in every table that indexes it.
    #[verifier::opaque]
    pub open spec fn rewarded(self, p: Position, m: Move, ply: int, bonus: int) -> World {
        let h = hist_at(p, m);
        let (p1, p2) = (self.prev(ply, 1), self.prev(ply, 2));
        let (i, j) = (cont_at(0, p1, step_of(p, m)), cont_at(1, p2, step_of(p, m)));
        let c1 = if p1 != 0 {
            self.cont.update(i, pulled(self.cont[i] as int, bonus) as i16)
        } else {
            self.cont
        };
        let c2 = if p2 != 0 {
            c1.update(j, pulled(c1[j] as int, bonus) as i16)
        } else {
            c1
        };
        World {
            history: self.history.update(h, pulled(self.history[h] as int, bonus) as i16),
            cont: c2,
            ..self
        }
    }

    /// A capture rewarded or punished.
    pub open spec fn capt_rewarded(self, p: Position, m: Move, bonus: int) -> World {
        let i = capt_at(p, m);
        World {
            capt_hist: self.capt_hist.update(i, pulled(self.capt_hist[i] as int, bonus) as i16),
            ..self
        }
    }

    /// The first `n` quiets tried before a cutoff punished.
    pub open spec fn quiets_punished(
        self,
        p: Position,
        l: Seq<Move>,
        best: Move,
        ply: int,
        malus: int,
        n: nat,
    ) -> World
        decreases n,
    {
        if n == 0 {
            self
        } else {
            let w = self.quiets_punished(p, l, best, ply, malus, (n - 1) as nat);
            if l[n - 1] == best {
                w
            } else {
                w.rewarded(p, l[n - 1], ply, malus)
            }
        }
    }

    /// The first `n` captures tried before a cutoff punished.
    pub open spec fn captures_punished(
        self,
        p: Position,
        l: Seq<Move>,
        best: Move,
        malus: int,
        n: nat,
    ) -> World
        decreases n,
    {
        if n == 0 {
            self
        } else {
            let w = self.captures_punished(p, l, best, malus, (n - 1) as nat);
            if l[n - 1] == best {
                w
            } else {
                w.capt_rewarded(p, l[n - 1], malus)
            }
        }
    }

    /// `m` as the newest killer of a ply.
    pub open spec fn killed(self, ply: int, m: Move) -> World {
        let k = self.killers;
        World {
            killers: if k[ply * 2] == m {
                k
            } else {
                k.update(ply * 2 + 1, k[ply * 2]).update(ply * 2, m)
            },
            ..self
        }
    }

    /// `m` as the answer to the previous move.
    pub open spec fn countered(self, ply: int, m: Move) -> World {
        let prev = self.prev(ply, 1);
        World {
            counter: if prev != 0 {
                self.counter.update(prev - 1, m)
            } else {
                self.counter
            },
            ..self
        }
    }

    /// What a cutoff by `best` teaches. Everything tried before it was, in
    /// hindsight, wrong.
    #[verifier::opaque]
    pub open spec fn credited(
        self,
        p: Position,
        best: Move,
        ply: int,
        depth: int,
        quiets: Seq<Move>,
        noisy: Seq<Move>,
    ) -> World {
        let bonus = mind::clamp(155 * depth - 80, 0, 1200);
        let w = if mind::is_noisy(best) {
            self.capt_rewarded(p, best, bonus)
        } else {
            self.rewarded(p, best, ply, bonus).killed(ply, best).countered(
                ply,
                best,
            ).quiets_punished(p, quiets, best, ply, -bonus, quiets.len())
        };
        w.captures_punished(p, noisy, best, -bonus, noisy.len())
    }

    /// What the tables remember of a move, as far as sixteen bits of history go.
    #[verifier::opaque]
    pub open spec fn memory(self, p: Position, m: Move, ply: int) -> int {
        if mind::is_noisy(m) {
            self.capt_hist[capt_at(p, m)] as int
        } else {
            mind::clamp(self.quiet_sum(p, m, ply), -16_384, 16_384)
        }
    }

    /// The quiet histories of a move together.
    pub open spec fn quiet_sum(self, p: Position, m: Move, ply: int) -> int {
        let (p1, p2) = (self.prev(ply, 1), self.prev(ply, 2));
        self.history[hist_at(p, m)] + (if p1 != 0 {
            self.cont[cont_at(0, p1, step_of(p, m))] as int
        } else {
            0
        }) + if p2 != 0 {
            self.cont[cont_at(1, p2, step_of(p, m))] as int
        } else {
            0
        }
    }

    /// The ordering score of a move. `thresh` is the swap value a capture must
    /// clear to sort above the quiet moves.
    pub open spec fn rank(self, p: Position, m: Move, tt_move: Move, ply: int, thresh: int) -> int {
        let prev = self.prev(ply, 1);
        if m == tt_move {
            16_777_216
        } else if m.pro() && m.promo_spec() == 4 {
            8_388_708
        } else if mind::is_noisy(m) {
            // Winning captures ahead of every quiet, losing ones behind.
            (if see::see(p, m) >= thresh {
                4_194_304int
            } else {
                -4_194_304
            }) + SEE_VAL@[see::taken(p, m)] * 16 + self.capt_hist[capt_at(p, m)]
        } else if m == self.killers[ply * 2] {
            2_097_154
        } else if m == self.killers[ply * 2 + 1] {
            2_097_153
        } else if m == if prev != 0 {
            self.counter[prev - 1]
        } else {
            Move(0)
        } {
            1_048_576
        } else {
            self.quiet_sum(p, m, ply)
        }
    }

    /// The ordering scores of a list.
    #[verifier::opaque]
    pub open spec fn ranks(
        self,
        p: Position,
        l: Seq<Move>,
        tt_move: Move,
        ply: int,
        thresh: int,
    ) -> Seq<i32> {
        Seq::new(l.len(), |i: int| self.rank(p, l[i], tt_move, ply, thresh) as i32)
    }
}

/// Table indices are in range.
pub proof fn lemma_indices(p: Position, m: Move, p1: int, p2: int)
    requires
        p.board_ok(),
        p.stm < 2,
        0 <= p1 <= 768,
        0 <= p2 <= 768,
    ensures
        0 <= mover(p, m) < 12,
        0 <= hist_at(p, m) < 8192,
        1 <= step_of(p, m) <= 768,
        0 <= cont_at(0, p1, step_of(p, m)) < 591_361,
        591_361 <= cont_at(1, p2, step_of(p, m)) < 1_182_722,
        0 <= see::taken(p, m) <= 6,
        0 <= capt_at(p, m) < 5376,
{
    pos::lemma_cells(p, m.f());
    pos::lemma_cells(p, m.t());
}

impl Searcher {
    /// Where the capture history of `m` is.
    #[inline(always)]
    fn capt_slot(&self, pos: &Position, m: Move) -> (r: usize)
        requires
            pos.board_ok(),
            pos.stm < 2,
        ensures
            r == capt_at(*pos, m),
            r < 5376,
    {
        proof {
            lemma_indices(*pos, m, 0, 0);
        }
        let moved = pc_index(pos.stm, pos.piece_at(m.from()) as usize);
        let victim = if m.is_ep() {
            PAWN_P
        } else {
            pos.piece_at(m.to()) as usize
        };
        (moved * 64 + m.to()) * 7 + victim
    }

    /// Where the quiet histories of `m` are: butterfly, and one and two plies
    /// back.
    #[inline(always)]
    fn quiet_slots(&self, pos: &Position, m: Move, p1: usize, p2: usize) -> (r: (usize, usize, usize))
        requires
            pos.board_ok(),
            pos.stm < 2,
            p1 <= 768,
            p2 <= 768,
        ensures
            r.0 == hist_at(*pos, m),
            r.1 == cont_at(0, p1 as int, step_of(*pos, m)),
            r.2 == cont_at(1, p2 as int, step_of(*pos, m)),
            r.0 < 8192,
            r.1 < 591_361,
            591_361 <= r.2 < 1_182_722,
    {
        proof {
            lemma_indices(*pos, m, p1 as int, p2 as int);
        }
        let (from, to) = (m.from(), m.to());
        let step = pc_index(pos.stm, pos.piece_at(from) as usize) * 64 + to + 1;
        (pos.stm * 4096 + from * 64 + to, p1 * CONT_N + step, (CONT_N + p2) * CONT_N + step)
    }

    pub fn bonus_quiet(&mut self, pos: &Position, m: Move, ply: usize, bonus: i32)
        requires
            old(self).wf(),
            pos.board_ok(),
            pos.stm < 2,
            ply < 136,
        ensures
            final(self).wf(),
            final(self)@ == old(self)@.rewarded(*pos, m, ply as int, bonus as int),
            final(self).kept(*old(self)),
            final(self).steady(*old(self)),
    {
        proof {
            reveal(World::rewarded);
        }
        let (p1, p2) = (self.prev_at(ply, 1), self.prev_at(ply, 2));
        let (h, i, j) = self.quiet_slots(pos, m, p1, p2);
        let x = gravity(self.history[h], bonus);
        self.history.set(h, x);
        if p1 != 0 {
            let y = gravity(self.cont[i], bonus);
            self.cont.set(i, y);
        }
        if p2 != 0 {
            let z = gravity(self.cont[j], bonus);
            self.cont.set(j, z);
        }
        proof {
            assert(self@ =~= old(self)@.rewarded(*pos, m, ply as int, bonus as int));
        }
    }

    fn bonus_capture(&mut self, pos: &Position, m: Move, bonus: i32)
        requires
            old(self).wf(),
            pos.board_ok(),
            pos.stm < 2,
        ensures
            final(self).wf(),
            final(self)@ == old(self)@.capt_rewarded(*pos, m, bonus as int),
            final(self).kept(*old(self)),
            final(self).steady(*old(self)),
    {
        let i = self.capt_slot(pos, m);
        let x = gravity(self.capt_hist[i], bonus);
        self.capt_hist.set(i, x);
        proof {
            assert(self@ =~= old(self)@.capt_rewarded(*pos, m, bonus as int));
        }
    }

    /// Killers are per ply and deliberately not per position: a refutation
    /// usually works against the whole family of sibling positions.
    fn set_killer(&mut self, ply: usize, m: Move)
        requires
            old(self).wf(),
            ply < 130,
        ensures
            final(self).wf(),
            final(self)@ == old(self)@.killed(ply as int, m),
            final(self).kept(*old(self)),
            final(self).steady(*old(self)),
    {
        let k = self.killers[ply * 2];
        if k != m {
            self.killers.set(ply * 2 + 1, k);
            self.killers.set(ply * 2, m);
        }
        proof {
            assert(self@ =~= old(self)@.killed(ply as int, m));
        }
    }

    fn set_counter(&mut self, ply: usize, m: Move)
        requires
            old(self).wf(),
            ply < 130,
        ensures
            final(self).wf(),
            final(self)@ == old(self)@.countered(ply as int, m),
            final(self).kept(*old(self)),
            final(self).steady(*old(self)),
    {
        let prev = self.prev_at(ply, 1);
        if prev != 0 {
            self.counter.set(prev - 1, m);
        }
        proof {
            assert(self@ =~= old(self)@.countered(ply as int, m));
        }
    }

    pub fn update_histories(
        &mut self,
        pos: &Position,
        best: Move,
        ply: usize,
        depth: i32,
        quiets: &Tried,
        noisy: &Tried,
    )
        requires
            old(self).wf(),
            pos.board_ok(),
            pos.stm < 2,
            ply < 128,
            -1_000_000 <= depth <= 1_000_000,
        ensures
            final(self).wf(),
            final(self)@ == old(self)@.credited(
                *pos,
                best,
                ply as int,
                depth as int,
                quiets@,
                noisy@,
            ),
            final(self).kept(*old(self)),
            final(self).steady(*old(self)),
    {
        proof {
            reveal(World::credited);
        }
        let bonus = clamp_i32(155 * depth - 80, 0, 1200);
        let malus = -bonus;
        if pos_is_noisy(best) {
            self.bonus_capture(pos, best, bonus);
        } else {
            self.bonus_quiet(pos, best, ply, bonus);
            self.set_killer(ply, best);
            self.set_counter(ply, best);
            let ghost w0 = self@;
            let mut i: usize = 0;
            while i < quiets.len()
                invariant
                    self.wf(),
                    pos.board_ok(),
                    pos.stm < 2,
                    ply < 128,
                    i <= quiets@.len(),
                    self.kept(*old(self)),
                    self.steady(*old(self)),
                    self@ == w0.quiets_punished(
                        *pos,
                        quiets@,
                        best,
                        ply as int,
                        malus as int,
                        i as nat,
                    ),
                decreases quiets@.len() - i,
            {
                let q = quiets.get(i);
                if q != best {
                    self.bonus_quiet(pos, q, ply, malus);
                }
                i = i + 1;
            }
        }
        let ghost w1 = self@;
        let mut i: usize = 0;
        while i < noisy.len()
            invariant
                self.wf(),
                pos.board_ok(),
                pos.stm < 2,
                i <= noisy@.len(),
                self.kept(*old(self)),
                self.steady(*old(self)),
                self@ == w1.captures_punished(*pos, noisy@, best, malus as int, i as nat),
            decreases noisy@.len() - i,
        {
            let q = noisy.get(i);
            if q != best {
                self.bonus_capture(pos, q, malus);
            }
            i = i + 1;
        }
    }

    /// The quiet histories of a move together.
    #[inline(always)]
    fn quiet_history(&self, pos: &Position, m: Move, ply: usize) -> (r: i32)
        requires
            self.wf(),
            pos.board_ok(),
            pos.stm < 2,
            ply < 136,
        ensures
            r == self@.quiet_sum(*pos, m, ply as int),
            -49_152 <= r <= 49_152,
    {
        let (p1, p2) = (self.prev_at(ply, 1), self.prev_at(ply, 2));
        let (h, i, j) = self.quiet_slots(pos, m, p1, p2);
        let mut s = self.history[h] as i32;
        if p1 != 0 {
            s = s + self.cont[i] as i32;
        }
        if p2 != 0 {
            s = s + self.cont[j] as i32;
        }
        s
    }

    /// The reduction formula reads the same tables the ordering does, or a move
    /// can be ordered late and then reduced as though nothing were known about
    /// it.
    #[inline(always)]
    pub fn history_of(&self, pos: &Position, m: Move, ply: usize) -> (r: i16)
        requires
            self.wf(),
            pos.board_ok(),
            pos.stm < 2,
            ply < 136,
        ensures
            r == self@.memory(*pos, m, ply as int),
            -16_384 <= r <= 16_384,
    {
        proof {
            reveal(World::memory);
        }
        if pos_is_noisy(m) {
            return self.capt_hist[self.capt_slot(pos, m)];
        }
        clamp_i32(self.quiet_history(pos, m, ply), -16_384, 16_384) as i16
    }

    fn rank_move(&self, pos: &Position, t: &Tables, m: Move, tt_move: Move, ply: usize, thresh: i32) -> (r:
        i32)
        requires
            self.wf(),
            pos.board_ok(),
            pos.stm < 2,
            ply < 128,
            m.is_ep_spec() ==> geom::is_sq(rules::back(pos.stm as int, m.t())),
        ensures
            r == self@.rank(*pos, m, tt_move, ply as int, thresh as int),
    {
        if m == tt_move {
            return 16_777_216;
        }
        if m.is_promo() && m.promo() == QUEEN_P {
            return 8_388_708;
        }
        if pos_is_noisy(m) {
            proof {
                lemma_indices(*pos, m, 0, 0);
            }
            let victim = if m.is_ep() {
                PAWN_P
            } else {
                pos.piece_at(m.to()) as usize
            };
            assert(0 <= SEE_VAL@[victim as int] <= 10_000);
            let mvv = SEE_VAL[victim] * 16;
            let ch = self.capt_hist[self.capt_slot(pos, m)] as i32;
            return if see_ge(pos, t, m, thresh) {
                4_194_304 + mvv + ch
            } else {
                -4_194_304 + mvv + ch
            };
        }
        if m == self.killers[ply * 2] {
            return 2_097_154;
        }
        if m == self.killers[ply * 2 + 1] {
            return 2_097_153;
        }
        let prev = self.prev_at(ply, 1);
        let counter = if prev != 0 {
            self.counter[prev - 1]
        } else {
            Move::null()
        };
        if m == counter {
            return 1_048_576;
        }
        self.quiet_history(pos, m, ply)
    }

    /// Score a list of moves for ordering.
    pub fn score_moves(
        &self,
        pos: &Position,
        t: &Tables,
        list: &mut MoveList,
        tt_move: Move,
        ply: usize,
        thresh: i32,
    )
        requires
            self.wf(),
            pos.board_ok(),
            pos.stm < 2,
            ply < 128,
            old(list).wf(),
            forall|i: int|
                0 <= i < old(list)@.len() && (#[trigger] old(list)@[i]).is_ep_spec() ==> geom::is_sq(
                    rules::back(pos.stm as int, old(list)@[i].t()),
                ),
        ensures
            final(list).wf(),
            final(list)@ == old(list)@,
            final(list).n == old(list).n,
            final(list).sc@ == self@.ranks(*pos, old(list)@, tt_move, ply as int, thresh as int),
    {
        proof {
            reveal(World::ranks);
        }
        let mut i: usize = 0;
        while i < list.n
            invariant
                self.wf(),
                pos.board_ok(),
                pos.stm < 2,
                ply < 128,
                list.wf(),
                list@ == old(list)@,
                list.n == old(list).n,
                i <= list.n,
                forall|j: int|
                    0 <= j < list@.len() && (#[trigger] list@[j]).is_ep_spec() ==> geom::is_sq(
                        rules::back(pos.stm as int, list@[j].t()),
                    ),
                forall|j: int|
                    0 <= j < i ==> #[trigger] list.sc@[j] == self@.rank(
                        *pos,
                        list@[j],
                        tt_move,
                        ply as int,
                        thresh as int,
                    ),
            decreases list.n - i,
        {
            let m = list.mv[i];
            assert(m == list@[i as int]);
            let s = self.rank_move(pos, t, m, tt_move, ply, thresh);
            list.sc.set(i, s);
            i = i + 1;
        }
        proof {
            assert(list.sc@ =~= self@.ranks(*pos, list@, tt_move, ply as int, thresh as int));
        }
    }
}

// ---------------------------------------------------------------------------
// The line being searched
// ---------------------------------------------------------------------------

impl World {
    /// No line is known from `ply` yet.
    #[verifier::opaque]
    pub open spec fn opened(self, ply: int) -> World {
        World { pv_len: self.pv_len.update(ply, 0), ..self }
    }

    /// The killers two plies down belong to whatever the last visit to this
    /// subtree was doing.
    #[verifier::opaque]
    pub open spec fn forgot(self, ply: int) -> World {
        World {
            killers: self.killers.update((ply + 2) * 2, Move(0)).update((ply + 2) * 2 + 1, Move(0)),
            ..self
        }
    }

    /// `eval` is the static evaluation at `ply`.
    #[verifier::opaque]
    pub open spec fn marked(self, ply: int, eval: int) -> World {
        World {
            stack: self.stack.update(ply, Node { eval: eval as i32, ..self.stack[ply] }),
            ..self
        }
    }

    /// `m` is the move being searched at `ply`; `step` is its index.
    #[verifier::opaque]
    pub open spec fn stepped(self, ply: int, m: Move, step: int) -> World {
        World {
            stack: self.stack.update(
                ply,
                Node { mv: m, piece_to: step as usize, ..self.stack[ply] },
            ),
            ..self
        }
    }

    /// `m` heads the line of `ply`, and the line of the next ply follows.
    #[verifier::opaque]
    pub open spec fn lined(self, ply: int, m: Move) -> World {
        let child = self.pv_len[ply + 1];
        World {
            pv: Seq::new(
                self.pv.len(),
                |i: int|
                    if i == ply * 128 {
                        m
                    } else if ply * 128 < i <= ply * 128 + child {
                        self.pv[i + 127]
                    } else {
                        self.pv[i]
                    },
            ),
            pv_len: self.pv_len.update(ply, (child + 1) as usize),
            ..self
        }
    }

    /// The position was looked up in the evaluation.
    #[verifier::opaque]
    pub open spec fn assessed(self, p: Position) -> World {
        World { brain: eval::after(self.brain, p), ..self }
    }

    /// A result was put into the transposition table.
    #[verifier::opaque]
    pub open spec fn noted(
        self,
        p: Position,
        m: Move,
        score: int,
        eval: int,
        depth: int,
        bound: int,
        ply: int,
    ) -> World {
        World { table: self.table.stored(p.key, m, score, eval, depth, bound, ply), ..self }
    }
}

impl Searcher {
    pub(crate) fn open_line(&mut self, ply: usize)
        requires
            old(self).wf(),
            ply < 128,
        ensures
            final(self).wf(),
            final(self)@ == old(self)@.opened(ply as int),
            final(self).kept(*old(self)),
            final(self).idle(*old(self)),
            final(self).spared(*old(self), ply as int),
            final(self).pv_len@[ply as int] == 0,
    {
        self.pv_len.set(ply, 0);
        proof {
            reveal(World::opened);
            assert(self@ =~= old(self)@.opened(ply as int));
        }
    }

    pub(crate) fn forget_killers(&mut self, ply: usize)
        requires
            old(self).wf(),
            ply < 128,
        ensures
            final(self).wf(),
            final(self)@ == old(self)@.forgot(ply as int),
            final(self).kept(*old(self)),
            final(self).steady(*old(self)),
    {
        self.killers.set((ply + 2) * 2, Move::null());
        self.killers.set((ply + 2) * 2 + 1, Move::null());
        proof {
            reveal(World::forgot);
            assert(self@ =~= old(self)@.forgot(ply as int));
        }
    }

    pub(crate) fn mark_eval(&mut self, ply: usize, eval: i32)
        requires
            old(self).wf(),
            ply < 128,
        ensures
            final(self).wf(),
            final(self)@ == old(self)@.marked(ply as int, eval as int),
            final(self).kept(*old(self)),
            final(self).steady(*old(self)),
            forall|j: int|
                0 <= j < 136 && j != ply ==> #[trigger] final(self).stack@[j] == old(self).stack@[j],
    {
        let n = self.stack[ply];
        self.stack.set(ply, Node { mv: n.mv, piece_to: n.piece_to, eval });
        proof {
            reveal(World::marked);
            assert(self@ =~= old(self)@.marked(ply as int, eval as int));
        }
    }

    pub(crate) fn step(&mut self, ply: usize, m: Move, piece_to: usize)
        requires
            old(self).wf(),
            ply < 128,
            piece_to <= 768,
        ensures
            final(self).wf(),
            final(self)@ == old(self)@.stepped(ply as int, m, piece_to as int),
            final(self).kept(*old(self)),
            final(self).steady(*old(self)),
    {
        let n = self.stack[ply];
        self.stack.set(ply, Node { mv: m, piece_to, eval: n.eval });
        proof {
            reveal(World::stepped);
            assert(self@ =~= old(self)@.stepped(ply as int, m, piece_to as int));
        }
    }

    /// `m` as an index of the continuation tables.
    #[inline(always)]
    pub(crate) fn step_index(&self, pos: &Position, m: Move) -> (r: usize)
        requires
            pos.board_ok(),
            pos.stm < 2,
        ensures
            r == step_of(*pos, m),
            1 <= r <= 768,
    {
        proof {
            lemma_indices(*pos, m, 0, 0);
        }
        pc_index(pos.stm, pos.piece_at(m.from()) as usize) * 64 + m.to() + 1
    }

    pub(crate) fn update_pv(&mut self, ply: usize, m: Move)
        requires
            old(self).wf(),
            ply < 127,
        ensures
            final(self).wf(),
            final(self)@ == old(self)@.lined(ply as int, m),
            final(self).kept(*old(self)),
            final(self).idle(*old(self)),
            final(self).spared(*old(self), ply as int),
            final(self).pv@[ply * 128] == m,
            final(self).pv_len@[ply as int] > 0,
    {
        self.pv.set(ply * 128, m);
        let child = self.pv_len[ply + 1];
        let mut i: usize = 0;
        while i < child
            invariant
                ply < 127,
                i <= child <= 127 - ply,
                self.pv@.len() == 16_384,
                *self == (Searcher { pv: self.pv, ..*old(self) }),
                old(self).pv@.len() == 16_384,
                forall|j: int|
                    0 <= j < 16_384 ==> #[trigger] self.pv@[j] == if j == ply * 128 {
                        m
                    } else if ply * 128 < j <= ply * 128 + i {
                        old(self).pv@[j + 127]
                    } else {
                        old(self).pv@[j]
                    },
            decreases child - i,
        {
            let x = self.pv[(ply + 1) * 128 + i];
            self.pv.set(ply * 128 + i + 1, x);
            i = i + 1;
        }
        self.pv_len.set(ply, child + 1);
        proof {
            reveal(World::lined);
            assert(self@.pv =~= old(self)@.lined(ply as int, m).pv);
            assert(self@ =~= old(self)@.lined(ply as int, m));
        }
    }

    /// The static evaluation of a position, before any correction.
    pub(crate) fn assess(&mut self, pos: &Position, t: &Tables) -> (r: i32)
        requires
            old(self).wf(),
            pos.sound(),
        ensures
            final(self).wf(),
            final(self)@ == old(self)@.assessed(*pos),
            r == eval::score(old(self)@.brain, *pos),
            -10_000_000 <= r <= 10_000_000,
            final(self).kept(*old(self)),
            final(self).steady(*old(self)),
    {
        let r = evaluate(pos, t, &mut self.net);
        proof {
            reveal(World::assessed);
            assert(self@ =~= old(self)@.assessed(*pos));
        }
        r
    }

    pub(crate) fn note(
        &mut self,
        pos: &Position,
        m: Move,
        score: i32,
        eval: i32,
        depth: i32,
        bound: u8,
        ply: usize,
    )
        requires
            old(self).wf(),
            -10_000_000 <= score <= 10_000_000,
            -1000 <= depth <= 1000,
            bound < 4,
            ply < 136,
        ensures
            final(self).wf(),
            final(self)@ == old(self)@.noted(
                *pos,
                m,
                score as int,
                eval as int,
                depth as int,
                bound as int,
                ply as int,
            ),
            final(self).kept(*old(self)),
            final(self).steady(*old(self)),
    {
        self.tt.store(pos.key, m, score, eval, depth, bound, ply);
        proof {
            reveal(World::noted);
            assert(self@ =~= old(self)@.noted(
                *pos,
                m,
                score as int,
                eval as int,
                depth as int,
                bound as int,
                ply as int,
            ));
        }
    }
}

} // verus!
