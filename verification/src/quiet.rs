//! Quiescence search.

use vstd::prelude::*;
use crate::checks;
use crate::host::Host;
use crate::eval::{INF, MATE, SEE_VAL};
use crate::geom;
use crate::legal;
use crate::make;
use crate::mind::Searcher;
use crate::movegen;
use crate::movegen::{generate, gives_check, GenKind, MoveList};
use crate::moves::Move;
use crate::pos;
use crate::pos::{Position, PAWN_P};
use crate::rules;
use crate::see;
use crate::see::see_ge;
use crate::tables::Tables;
use crate::tally;
use crate::tree;
use crate::tree::{Calm, Sift};
use crate::tt::{BOUND_EXACT, BOUND_LOWER, BOUND_UPPER};

verus! {

broadcast use {crate::host::group_heard, crate::tt::group_led};

/// A position that can be searched at `ply`: it has room for the plies that are
/// left.
#[verifier::opaque]
pub open spec fn ready(p: Position, ply: int) -> bool {
    &&& p.wf()
    &&& p.clean()
    &&& p.room(128 - ply)
}

/// A move that can be played.
#[verifier::opaque]
pub open spec fn fit(p: Position, m: Move) -> bool {
    rules::legal(p, m)
}

/// Every move of a list can be played.
pub open spec fn all_fit(p: Position, l: Seq<Move>) -> bool {
    forall|i: int| 0 <= i < l.len() ==> fit(p, #[trigger] l[i])
}

/// What the parts of a search rely on.
pub proof fn lemma_basics(p: Position, ply: int)
    requires
        ready(p, ply),
        ply <= 128,
    ensures
        p.stm < 2,
        p.board_ok(),
        p.hist_len <= 4232,
{
    reveal(ready);
}

pub proof fn lemma_sound(p: Position, ply: int)
    requires
        ready(p, ply),
    ensures
        p.sound(),
{
    reveal(ready);
}

proof fn lemma_all_fit(p: Position, ply: int, kind: GenKind)
    requires
        ready(p, ply),
    ensures
        all_fit(p, movegen::move_list(p, kind)),
        forall|i: int|
            #![trigger movegen::move_list(p, kind)[i]]
            0 <= i < movegen::move_list(p, kind).len() && movegen::move_list(
                p,
                kind,
            )[i].is_ep_spec() ==> geom::is_sq(
                rules::back(p.stm as int, movegen::move_list(p, kind)[i].t()),
            ),
{
    reveal(ready);
    reveal(fit);
    let l = movegen::move_list(p, kind);
    assert forall|i: int| 0 <= i < l.len() implies fit(p, #[trigger] l[i]) && (l[i].is_ep_spec() ==> geom::is_sq(
        rules::back(p.stm as int, l[i].t()),
    )) by {
        assert(l.contains(l[i]));
        legal::law_noisy_is_tactical(p, l[i]);
        legal::law_generated_is_legal(p, l[i]);
        lemma_fit(p, ply, l[i]);
    }
}

/// What a legal move is made of.
pub proof fn lemma_fit(p: Position, ply: int, m: Move)
    requires
        ready(p, ply),
        fit(p, m),
    ensures
        m != Move(0),
        m.is_ep_spec() ==> geom::is_sq(rules::back(p.stm as int, m.t())),
{
    reveal(ready);
    reveal(fit);
    lemma_not_null(p, m);
}

/// A legal move is a move.
pub proof fn lemma_not_null(p: Position, m: Move)
    requires
        p.wf(),
        rules::legal(p, m),
    ensures
        m != Move(0),
{
    if m == Move(0) {
        assert(m.f() == 0 && m.t() == 0 && m.k() == 0);
        pos::lemma_cells(p, 0);
    }
}

/// A position after a legal move can be searched one ply on.
pub proof fn lemma_ready(p: Position, ply: int, m: Move, q: Position)
    requires
        ready(p, ply),
        ply < 128,
        fit(p, m),
        q.sound(),
        make::made(p, m, q),
    ensures
        q == make::after(p, m),
        ready(q, ply + 1),
{
    reveal(ready);
    reveal(fit);
    legal::law_legal_keeps_wf(p, m, q);
    make::law_make_is_deterministic(p, m, q, make::after(p, m));
    assert(q.clean()) by {
        assert(q.stack@.len() == p.stack@.len());
    }
}

/// Does a move that can be played give check?
pub(crate) fn checks(pos: &Position, t: &Tables, m: Move, Ghost(ply): Ghost<int>) -> (r: bool)
    requires
        ready(*pos, ply),
        fit(*pos, m),
    ensures
        r == checks::checking(*pos, m),
{
    proof {
        reveal(ready);
        reveal(fit);
    }
    gives_check(pos, t, m)
}

/// Make a legal move.
pub(crate) fn play(pos: &mut Position, t: &Tables, m: Move, Ghost(ply): Ghost<int>)
    requires
        ready(*old(pos), ply),
        ply < 128,
        fit(*old(pos), m),
    ensures
        *final(pos) == make::after(*old(pos), m),
        make::made(*old(pos), m, *final(pos)),
        ready(*final(pos), ply + 1),
{
    proof {
        reveal(ready);
        reveal(fit);
        legal::law_legal_is_playable(*pos, m);
    }
    pos.make(t, m);
    proof {
        lemma_ready(*old(pos), ply, m, *pos);
    }
}

/// Take a legal move back.
pub(crate) fn retract(pos: &mut Position, m: Move, Ghost(p): Ghost<Position>, Ghost(ply): Ghost<int>)
    requires
        ready(p, ply),
        ply < 128,
        fit(p, m),
        *old(pos) == make::after(p, m),
        ready(*old(pos), ply + 1),
        make::made(p, m, *old(pos)),
    ensures
        *final(pos) == p,
{
    proof {
        reveal(ready);
        reveal(fit);
        legal::law_legal_is_playable(p, m);
        rules::lemma_takeable(p.cells(), p.stm as int, m);
        pos::lemma_cells(p, m.t());
    }
    let ghost q = *pos;
    pos.unmake(m);
    proof {
        make::law_unmake_restores(p, m, q, *pos);
    }
}

/// Pass the turn.
pub(crate) fn play_null(pos: &mut Position, t: &Tables, Ghost(ply): Ghost<int>)
    requires
        ready(*old(pos), ply),
        ply < 128,
        old(pos).checkers == 0,
    ensures
        *final(pos) == make::after_null(*old(pos)),
        make::made_null(*old(pos), *final(pos)),
        ready(*final(pos), ply + 1),
{
    proof {
        reveal(ready);
    }
    pos.make_null(t);
    proof {
        make::law_passing_is_deterministic(*old(pos), *pos, make::after_null(*old(pos)));
        assert(pos.clean()) by {
            assert(pos.stack@.len() == old(pos).stack@.len());
        }
    }
}

/// Take a passed turn back.
pub(crate) fn retract_null(pos: &mut Position, Ghost(p): Ghost<Position>, Ghost(ply): Ghost<int>)
    requires
        ready(p, ply),
        ply < 128,
        ready(*old(pos), ply + 1),
        make::made_null(p, *old(pos)),
    ensures
        *final(pos) == p,
{
    proof {
        reveal(ready);
    }
    let ghost q = *pos;
    pos.unmake_null();
    proof {
        make::law_null_round_trip(p, q, *pos);
    }
}

/// What a move wins at once.
pub(crate) fn material_gain(pos: &Position, m: Move) -> (r: i32)
    requires
        pos.board_ok(),
    ensures
        r == see::gain(*pos, m),
        -10_000 <= r <= 20_000,
{
    proof {
        pos::lemma_cells(*pos, m.t());
    }
    let victim = if m.is_ep() {
        PAWN_P
    } else {
        pos.piece_at(m.to()) as usize
    };
    let mut r = SEE_VAL[victim];
    if m.is_promo() {
        r = r + SEE_VAL[m.promo()] - SEE_VAL[PAWN_P];
    }
    r
}

impl Searcher {
    /// The moves of a node, ranked.
    pub(crate) fn ranked(
        &self,
        pos: &Position,
        t: &Tables,
        kind: GenKind,
        tt_move: Move,
        ply: usize,
        thresh: i32,
    ) -> (list: MoveList)
        requires
            self.wf(),
            ready(*pos, ply as int),
            ply < 128,
        ensures
            list.wf(),
            list@ == tree::menu(*pos, kind),
            list.sc@ == self@.ranks(*pos, list@, tt_move, ply as int, thresh as int),
            all_fit(*pos, list@),
    {
        let mut list = MoveList::new();
        proof {
            reveal(tree::menu);
            lemma_basics(*pos, ply as int);
            lemma_sound(*pos, ply as int);
            lemma_all_fit(*pos, ply as int, kind);
        }
        generate(pos, t, &mut list, kind);
        self.score_moves(pos, t, &mut list, tt_move, ply, thresh);
        list
    }

    /// What every part of a search leaves behind, finished or not.
    pub open spec fn went(self, o: Searcher) -> bool {
        self.wf() && self.kept(o) && self.heeds(o)
    }

    /// Nothing but captures, queen promotions and evasions, down to a quiet
    /// position. What was found only counts while the search was not stopped.
    pub(crate) fn qsearch<H: Host>(
        &mut self,
        pos: &mut Position,
        t: &Tables,
        host: &mut H,
        alpha: i32,
        beta: i32,
        ply: usize,
        pv_node: bool,
    ) -> (r: i32)
        requires
            old(self).wf(),
            ready(*old(pos), ply as int),
            ply <= 127,
            -33_000 <= alpha <= 33_000,
            -33_000 <= beta <= 33_000,
        ensures
            final(host).shown() == old(host).shown(),
            final(self).minded(*old(self), old(host).heard(), final(host).heard()),
            final(self).went(*old(self)),
            final(self).pv == old(self).pv,
            final(self).pv_len == old(self).pv_len,
            *final(pos) == *old(pos),
            -10_000_000 <= r <= 10_000_000,
            !final(self).stop ==> (final(self)@, r as int) == tree::calm(
                old(self)@,
                *old(pos),
                alpha as int,
                beta as int,
                ply as int,
                pv_node,
            ),
            final(self).cut_short(
                *old(self),
                tree::calm(
                    old(self)@,
                    *old(pos),
                    alpha as int,
                    beta as int,
                    ply as int,
                    pv_node,
                ).0,
            ),
        decreases 128 - ply,
    {
        let ghost goal = tree::calm(
            self@,
            *pos,
            alpha as int,
            beta as int,
            ply as int,
            pv_node,
        );
        let ghost p = *pos;
        proof {
            lemma_basics(p, ply as int);
        }
        self.check_stop(host);
        if self.stop {
            proof {
                if old(self).left_alone() {
                    tally::lemma_calm(
                        old(self)@,
                        p,
                        alpha as int,
                        beta as int,
                        ply as int,
                        pv_node,
                    );
                }
            }
            return 0;
        }
        self.count(ply);
        if pos.is_draw(ply) || pos.is_material_draw() {
            return 0;
        }
        let in_check = pos.in_check();
        if ply >= 127 {
            if in_check {
                return 0;
            }
            proof {
                lemma_sound(p, ply as int);
            }
            return self.assess(pos, t);
        }
        let hit = self.tt.probe(pos.key, ply);
        let mut tt_move = Move::null();
        if let Some(h) = &hit {
            tt_move = h.mv;
            if !pv_node && (h.bound == BOUND_EXACT || (h.bound == BOUND_LOWER && h.score >= beta) || (
            h.bound == BOUND_UPPER && h.score <= alpha)) {
                return h.score;
            }
        }
        let mut lo = alpha;
        let mut best = -INF;
        let mut raw = -INF;
        if !in_check {
            proof {
                lemma_sound(p, ply as int);
            }
            raw = match &hit {
                Some(h) => h.eval,
                None => self.assess(pos, t),
            };
            best = self.corrected_eval(pos, ply, raw);
            if best >= beta {
                self.note(pos, Move::null(), best, raw, 0, BOUND_LOWER, ply);
                return best;
            }
            if best > lo {
                lo = best;
            }
        }
        let stand = best;
        let kind = if in_check {
            GenKind::All
        } else {
            GenKind::Noisy
        };
        // In check every move is searched, losing captures too, so the main
        // search's threshold stands. Out of check they are discarded, which is
        // what makes the higher threshold safe.
        let mut list = self.ranked(
            pos,
            t,
            kind,
            tt_move,
            ply,
            if in_check {
                -20
            } else {
                0
            },
        );
        if list.n == 0 {
            return if in_check {
                -MATE + ply as i32
            } else {
                best
            };
        }
        let mut best_move = Move::null();
        let mut bound = BOUND_UPPER;
        let ghost c = Calm {
            beta: beta as int,
            ply: ply as int,
            pv: pv_node,
            in_check,
            raw: raw as int,
            stand: stand as int,
        };
        let mut i: usize = 0;
        while i < list.n
            invariant
                host.shown() == old(host).shown(),
                self.minded(*old(self), old(host).heard(), host.heard()),
                self.went(*old(self)),
                !self.stop,
                self.pv == old(self).pv,
                self.pv_len == old(self).pv_len,
                *pos == p,
                *old(pos) == p,
                ready(p, ply as int),
                ply < 127,
                list.wf(),
                i <= list.n,
                all_fit(p, list@),
                bound < 4,
                -33_000 <= lo <= 33_000,
                -33_000 <= beta <= 33_000,
                -10_000_000 <= best <= 10_000_000,
                -32_500 <= stand <= 32_500,
                c == (Calm {
                    beta: beta as int,
                    ply: ply as int,
                    pv: pv_node,
                    in_check,
                    raw: raw as int,
                    stand: stand as int,
                }),
                goal == tree::sift(
                    self@,
                    p,
                    c,
                    (Sift {
                        l: list@,
                        sc: list.sc@,
                        i: i as int,
                        alpha: lo as int,
                        best: best as int,
                        best_move,
                        bound: bound as int,
                    }),
                ),
                goal == tree::calm(old(self)@, p, alpha as int, beta as int, ply as int, pv_node),
            decreases list.n - i,
        {
            let ghost s0 = Sift {
                l: list@,
                sc: list.sc@,
                i: i as int,
                alpha: lo as int,
                best: best as int,
                best_move,
                bound: bound as int,
            };
            let m = list.pick(i);
            proof {
                assert(s0.picked().l == list@ && s0.picked().sc == list.sc@);
                lemma_fit(p, ply as int, m);
                lemma_basics(p, ply as int);
            }
            if !in_check {
                // Everything left over is a losing capture, so stop rather than
                // ask again.
                if list.sc[i] < 0 {
                    self.note(pos, best_move, best, raw, 0, bound, ply);
                    return best;
                }
                // Even winning this material would not reach alpha, or the move
                // was ranked by what it is rather than by what it wins.
                let gain = material_gain(pos, m);
                if stand + gain + 150 < lo || (list.sc[i] >= 8_388_608 && !see_ge(pos, t, m, 0)) {
                    i = i + 1;
                    continue ;
                }
            }
            let ghost w0 = self@;
            play(pos, t, m, Ghost(ply as int));
            let v = self.qsearch(pos, t, host, -beta, -lo, ply + 1, pv_node);
            let score = -v;
            retract(pos, m, Ghost(p), Ghost(ply as int));
            if self.stop {
                proof {
                    if old(self).left_alone() {
                        tally::lemma_sift(w0, p, c, s0);
                    }
                }
                return 0;
            }
            if score > best {
                best = score;
                if score > lo {
                    best_move = m;
                    if score >= beta {
                        self.note(pos, m, score, raw, 0, BOUND_LOWER, ply);
                        return score;
                    }
                    lo = score;
                    bound = BOUND_EXACT;
                }
            }
            i = i + 1;
        }
        self.note(pos, best_move, best, raw, 0, bound, ply);
        best
    }
}

} // verus!
