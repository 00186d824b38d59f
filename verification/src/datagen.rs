//! Self-play data generation for network distillation.
//!
//! One line per position: `FEN | score | result`, where `score` is the search's
//! evaluation in centipawns from white's point of view and `result` is the
//! eventual game outcome (0, 1 or 2 for black win, draw, white win).
//!
//! The filtering matters more than the volume. Positions are dropped when the
//! side to move is in check or the best move is a capture, because in those
//! positions the static evaluation the network is learning is not what decides
//! the game.

use vstd::prelude::*;
use vstd::string::*;
use crate::clock;
use crate::host::{Heard, Host};
use crate::eval::MATE_IN_MAX;
use crate::fen;
use crate::fen::write_fen;
use crate::fenlaw;
use crate::geom;
use crate::io;
use crate::io::Out;
use crate::legal;
use crate::make;
use crate::mind::{Limits, Searcher, World};
use crate::movegen;
use crate::movegen::{generate, GenKind, MoveList};
use crate::moves::Move;
use crate::orders;
use crate::orders::Bounds;
use crate::perft;
use crate::pos::Position;
use crate::rules;
use crate::tables::Tables;
use crate::think;
use crate::uci;

verus! {

broadcast use {crate::io::group_carried, crate::tt::group_led};

/// The most plies of a game.
pub const MAX_GAME: usize = 400;

// ---------------------------------------------------------------------------
// Random numbers
// ---------------------------------------------------------------------------

/// The number after `x`.
pub open spec fn scrambled(x: u64) -> u64 {
    let a = x ^ (x << 13);
    let b = a ^ (a >> 7);
    b ^ (b << 17)
}

/// Random numbers never run dry: what is not zero never becomes zero.
pub proof fn law_random_never_dies(x: u64)
    requires
        x != 0,
    ensures
        scrambled(x) != 0,
{
    let a = x ^ (x << 13);
    let b = a ^ (a >> 7);
    assert(x != 0 ==> x ^ (x << 13) != 0) by (bit_vector);
    assert(a != 0 ==> a ^ (a >> 7) != 0) by (bit_vector);
    assert(b != 0 ==> b ^ (b << 17) != 0) by (bit_vector);
}

pub struct Rng(pub u64);

impl Rng {
    /// A generator that never runs dry, whatever the seed.
    pub fn new(seed: u64) -> (r: Rng)
        ensures
            r.0 == seed | 1,
            r.0 != 0,
    {
        assert(seed | 1 != 0) by (bit_vector);
        Rng(seed | 1)
    }

    pub fn next(&mut self) -> (r: u64)
        ensures
            r == scrambled(old(self).0),
            final(self).0 == r,
    {
        let mut x = self.0;
        x = x ^ (x << 13);
        x = x ^ (x >> 7);
        x = x ^ (x << 17);
        self.0 = x;
        x
    }
}

/// A random legal move, or none where there is none.
pub fn random_move(pos: &Position, t: &Tables, rng: &mut Rng) -> (m: Move)
    requires
        pos.wf(),
    ensures
        ({
            let l = movegen::move_list(*pos, GenKind::All);
            if l.len() == 0 {
                m == Move(0) && final(rng).0 == old(rng).0
            } else {
                &&& final(rng).0 == scrambled(old(rng).0)
                &&& m == l[(final(rng).0 as int) % (l.len() as int)]
                &&& rules::legal(*pos, m)
            }
        }),
{
    let mut list = MoveList::new();
    generate(pos, t, &mut list, GenKind::All);
    if list.n == 0 {
        return Move::null();
    }
    let i = (rng.next() % list.n as u64) as usize;
    let m = list.mv[i];
    proof {
        let l = movegen::move_list(*pos, GenKind::All);
        assert(l[i as int] == m);
        assert(l.contains(m));
        legal::law_generated_is_legal(*pos, m);
        crate::quiet::lemma_not_null(*pos, m);
    }
    m
}

// ---------------------------------------------------------------------------
// Positions already written
// ---------------------------------------------------------------------------

/// Positions already written, as an open-addressed set of keys. Self-play from
/// randomised openings converges, and a duplicate teaches the network nothing
/// while still costing a training slot. A key of zero means the slot is free.
pub struct Seen {
    pub slots: Vec<u64>,
}

/// Where a probe for `key` ends that is at slot `i` with `n` slots to go: at
/// the key, at a free slot, or nowhere.
pub open spec fn probe(t: Seq<u64>, key: u64, i: int, n: nat) -> Option<int>
    decreases n,
{
    if n == 0 {
        None
    } else if t[i] == key || t[i] == 0 {
        Some(i)
    } else {
        probe(t, key, (i + 1) % 4_194_304, (n - 1) as nat)
    }
}

/// Where a probe for `key` starts.
pub open spec fn home(key: u64) -> int {
    (key / 4_398_046_511_104) as int
}

/// `key` has not been seen, as far as a short probe can tell.
pub open spec fn is_new(t: Seq<u64>, key: u64) -> bool {
    key == 0 || match probe(t, key, home(key), 8) {
        Some(i) => t[i] != key,
        None => true,
    }
}

/// The set after `key` was offered. A full run of slots stops remembering.
pub open spec fn noted(t: Seq<u64>, key: u64) -> Seq<u64> {
    if key == 0 {
        t
    } else {
        match probe(t, key, home(key), 8) {
            Some(i) => t.update(i, key),
            None => t,
        }
    }
}

proof fn lemma_probe(t: Seq<u64>, key: u64, i: int, n: nat)
    requires
        t.len() == 4_194_304,
        0 <= i < 4_194_304,
    ensures
        probe(t, key, i, n) matches Some(j) ==> 0 <= j < 4_194_304 && (t[j] == key || t[j] == 0),
    decreases n,
{
    if n > 0 && t[i] != key && t[i] != 0 {
        lemma_probe(t, key, (i + 1) % 4_194_304, (n - 1) as nat);
    }
}

/// A slot that answers a probe still does so when it holds the key itself.
proof fn lemma_again(t: Seq<u64>, key: u64, i: int, n: nat, j: int)
    requires
        t.len() == 4_194_304,
        0 <= i < 4_194_304,
        probe(t, key, i, n) == Some(j),
        key != 0,
    ensures
        probe(t.update(j, key), key, i, n) == Some(j),
    decreases n,
{
    lemma_probe(t, key, i, n);
    if t[i] != key && t[i] != 0 {
        lemma_again(t, key, (i + 1) % 4_194_304, (n - 1) as nat, j);
    }
}

/// A position is only new once: whatever was remembered is not new again.
pub proof fn law_seen_once(t: Seq<u64>, key: u64)
    requires
        t.len() == 4_194_304,
        key != 0,
        probe(t, key, home(key), 8) is Some,
    ensures
        !is_new(noted(t, key), key),
{
    let j = probe(t, key, home(key), 8)->0;
    lemma_probe(t, key, home(key), 8);
    lemma_again(t, key, home(key), 8, j);
}

impl Seen {
    pub open spec fn view(&self) -> Seq<u64> {
        self.slots@
    }

    pub open spec fn wf(self) -> bool {
        self.slots@.len() == 4_194_304
    }

    pub fn new() -> (s: Seen)
        ensures
            s.wf(),
            forall|i: int| 0 <= i < 4_194_304 ==> s@[i] == 0,
    {
        Seen { slots: vec![0u64; 4_194_304] }
    }

    /// True the first time a key is offered, false every time after. Probes a
    /// short run of slots and then gives up: a full table should stop
    /// remembering, not spin looking for room.
    pub fn first_sighting(&mut self, key: u64) -> (r: bool)
        requires
            old(self).wf(),
        ensures
            final(self).wf(),
            r == is_new(old(self)@, key),
            final(self)@ == noted(old(self)@, key),
    {
        if key == 0 {
            return true;
        }
        let mut i = (key / 4_398_046_511_104) as usize;
        let mut n: usize = 8;
        while n > 0
            invariant
                self.wf(),
                *self == *old(self),
                n <= 8,
                i < 4_194_304,
                key != 0,
                probe(self@, key, home(key), 8) == probe(self@, key, i as int, n as nat),
            decreases n,
        {
            let x = self.slots[i];
            if x == key {
                proof {
                    assert(self@ =~= self@.update(i as int, key));
                }
                return false;
            }
            if x == 0 {
                self.slots.set(i, key);
                return true;
            }
            i = (i + 1) % 4_194_304;
            n = n - 1;
        }
        true
    }
}

// ---------------------------------------------------------------------------
// What becomes of a game
// ---------------------------------------------------------------------------

/// A ply of a game: the position, what the search made of it, and the searcher
/// before and after.
pub struct Ply {
    pub p: Position,
    pub best: Move,
    pub score: int,
    pub from: Searcher,
    pub to: Searcher,
}

/// A recorded position, kept until the result is known.
pub struct Rec {
    pub fen: [u8; 96],
    pub len: usize,
    pub score: i32,
}

/// What a record says: its text and its score from white's point of view.
pub struct Note {
    pub fen: Seq<u8>,
    pub score: int,
}

impl Rec {
    pub open spec fn wf(self) -> bool {
        self.len <= 96
    }

    pub open spec fn view(&self) -> Note {
        Note { fen: self.fen@.take(self.len as int), score: self.score as int }
    }
}

/// Quiet, far enough from the random opening, and still open.
pub open spec fn telling(p: Position, best: Move, score: int, i: int) -> bool {
    &&& p.checkers == 0
    &&& !best.cap()
    &&& !best.pro()
    &&& i >= 2
    &&& geom::abs(score) < 2000
}

fn is_telling(pos: &Position, best: Move, score: i32, i: usize) -> (r: bool)
    ensures
        r == telling(*pos, best, score as int, i as int),
{
    !pos.in_check() && !best.is_capture() && !best.is_promo() && i >= 2 && -2000 < score && score
        < 2000
}

/// The records of the first `n` plies of a game, and the positions seen by
/// then.
pub open spec fn harvest(l: Seq<Ply>, seen: Seq<u64>, n: nat) -> (Seq<u64>, Seq<Note>)
    decreases n,
{
    if n == 0 {
        (seen, Seq::empty())
    } else {
        let (t, r) = harvest(l, seen, (n - 1) as nat);
        let x = l[n - 1];
        if telling(x.p, x.best, x.score, n - 1) {
            (
                noted(t, x.p.key),
                if is_new(t, x.p.key) {
                    r.push(
                        Note {
                            fen: fen::fen_text(x.p),
                            score: uci::white_score(x.p, x.score),
                        },
                    )
                } else {
                    r
                },
            )
        } else {
            (t, r)
        }
    }
}

/// How many decisive scores in a row the first `n` plies end with.
pub open spec fn lopsided(l: Seq<Ply>, n: nat) -> int
    decreases n,
{
    if n == 0 || geom::abs(l[n - 1].score) < 2000 {
        0
    } else {
        lopsided(l, (n - 1) as nat) + 1
    }
}

/// The game is decided at ply `i`: a mate was found, or the fourth decisive
/// score in a row. Trivially won endgames are not played out.
pub open spec fn decided(l: Seq<Ply>, i: int) -> bool {
    geom::abs(l[i].score) >= 31_872 || lopsided(l, (i + 1) as nat) >= 4
}

/// Who wins, if the score is to be believed: 2 for white, 0 for black.
pub open spec fn leader(x: Ply) -> int {
    if uci::white_score(x.p, x.score) > 0 {
        2
    } else {
        0
    }
}

/// The result where there is no move: mate or stalemate.
pub open spec fn dead_end(p: Position) -> int {
    if p.checkers == 0 {
        1
    } else if p.stm == 0 {
        0
    } else {
        2
    }
}

/// The plies of a game follow one another, and no ply but the last is decided.
#[verifier::opaque]
pub open spec fn follows(l: Seq<Ply>, start: Position) -> bool {
    &&& l.len() > 0 ==> l[0].p == start
    &&& forall|i: int|
        0 < i < l.len() ==> (#[trigger] l[i]).p == perft::settled(
            make::after(l[i - 1].p, l[i - 1].best),
        )
    &&& forall|i: int|
        0 <= i < l.len() ==> {
            &&& (#[trigger] l[i]).p.wf()
            &&& rules::legal(l[i].p, l[i].best)
            &&& !l[i].p.drawn(0)
            &&& !l[i].p.bare()
        }
    &&& forall|i: int| 0 <= i < l.len() - 1 ==> !#[trigger] decided(l, i)
}

/// The position after the plies of a game.
pub open spec fn outcome(l: Seq<Ply>, start: Position) -> Position {
    if l.len() == 0 {
        start
    } else {
        perft::settled(make::after(l.last().p, l.last().best))
    }
}

/// How a game ends.
#[verifier::opaque]
pub open spec fn ends(l: Seq<Ply>, start: Position, result: int) -> bool {
    if l.len() > 0 && decided(l, l.len() - 1) {
        result == leader(l.last())
    } else if l.len() >= 400 {
        result == 1
    } else {
        let q = outcome(l, start);
        if q.drawn(0) || q.bare() {
            result == 1
        } else {
            movegen::move_list(q, GenKind::All).len() == 0 && result == dead_end(q)
        }
    }
}

/// A line of training data.
pub open spec fn data_line(x: Note, result: int) -> Seq<u8> {
    (io::piece(x.fen) + " | ".spec_bytes() + io::signed_digits(x.score) + " | ".spec_bytes()
        + io::digits(result as nat)).push(10)
}

/// The lines of the first `n` records.
pub open spec fn data_lines(r: Seq<Note>, result: int, n: nat) -> Seq<u8>
    decreases n,
{
    if n == 0 {
        Seq::empty()
    } else {
        data_lines(r, result, (n - 1) as nat) + data_line(r[n - 1], result)
    }
}

/// What the records say.
pub open spec fn notes(v: Seq<Rec>) -> Seq<Note> {
    Seq::new(v.len(), |i: int| v[i]@)
}

fn write_record(r: &Rec, result: u8, out: &mut Out)
    requires
        r.wf(),
    ensures
        final(out).said == old(out).said,
        final(out)@ == old(out)@ + data_line(r@, result as int),
{
    let ghost o = out@;
    let fen = vstd::slice::slice_subrange(r.fen.as_slice(), 0, r.len);
    assert(fen@ =~= r@.fen);
    out.s(fen);
    out.say(" | ");
    out.i(r.score as i64);
    out.say(" | ");
    out.u(result as u64);
    out.c(10);
    proof {
        let (a, b) = (io::piece(r@.fen), " | ".spec_bytes());
        let (x, y) = (io::signed_digits(r.score as int), io::digits(result as nat));
        assert((o + a + b + x + b + y).push(10) =~= o + (a + b + x + b + y).push(10));
    }
}

/// Write the records of a game out, now that its result is known.
fn write_records(v: &Vec<Rec>, result: u8, out: &mut Out)
    requires
        forall|i: int| 0 <= i < v@.len() ==> (#[trigger] v@[i]).wf(),
    ensures
        final(out).said == old(out).said,
        final(out)@ == old(out)@ + data_lines(notes(v@), result as int, v@.len()),
{
    let ghost o = out@;
    let mut i: usize = 0;
    proof {
        assert(o + data_lines(notes(v@), result as int, 0) =~= o);
    }
    while i < v.len()
        invariant
            out.said == old(out).said,
            i <= v@.len(),
            forall|i: int| 0 <= i < v@.len() ==> (#[trigger] v@[i]).wf(),
            out@ == o + data_lines(notes(v@), result as int, i as nat),
        decreases v@.len() - i,
    {
        write_record(&v[i], result, out);
        proof {
            let x = data_lines(notes(v@), result as int, i as nat);
            let y = data_line(v@[i as int]@, result as int);
            assert(o + x + y =~= o + (x + y));
        }
        i = i + 1;
    }
}

// ---------------------------------------------------------------------------
// Playing a game
// ---------------------------------------------------------------------------

/// A silent search answered position `x.p` with `x.best` and `x.score`.
#[verifier::opaque]
pub open spec fn judged(x: Ply) -> bool {
    &&& x.from.silent
    &&& x.to.same_orders(x.from)
    &&& x.to.best == x.best
    &&& x.to.best_score == x.score
    &&& exists|text: Seq<u8>, a: Seq<Heard>, b: Seq<Heard>| #[trigger]
        think::searched(x.from, x.to, x.p, text, text, a, b)
}

/// The search of `x` began where `s` was left, with so many nodes.
pub open spec fn takes_up(s: Searcher, x: Ply, nodes: u64) -> bool {
    uci::ordered(s, x.from, (Bounds { nodes: nodes as int, ..orders::unlimited() }))
}

/// The searcher after the plies `l` of a game that `s` began.
pub open spec fn left(l: Seq<Ply>, s: Searcher) -> Searcher {
    if l.len() == 0 {
        s
    } else {
        l.last().to
    }
}

/// Each search of `l` began where the last one was left, the first where `s`
/// was.
#[verifier::opaque]
pub open spec fn chained(l: Seq<Ply>, s: Searcher, nodes: u64) -> bool {
    forall|j: int|
        0 <= j < l.len() ==> judged(#[trigger] l[j]) && takes_up(left(l.take(j), s), l[j], nodes)
}

proof fn lemma_chained(l: Seq<Ply>, s: Searcher, x: Ply, nodes: u64)
    requires
        chained(l, s, nodes),
        judged(x),
        takes_up(left(l, s), x, nodes),
    ensures
        chained(l.push(x), s, nodes),
        left(l.push(x), s) == x.to,
{
    reveal(chained);
    let m = l.push(x);
    assert forall|j: int| 0 <= j < m.len() implies judged(#[trigger] m[j]) && takes_up(
        left(m.take(j), s),
        m[j],
        nodes,
    ) by {
        assert(m.take(j) =~= l.take(j));
        if j < l.len() {
            assert(m[j] == l[j]);
        } else {
            assert(l.take(j) =~= l);
        }
    }
}

/// A position at the root of a game.
#[verifier::opaque]
pub open spec fn rooted(p: Position, plies: int) -> bool {
    &&& p.wf()
    &&& p.clean()
    &&& p.ply == 0
    &&& p.hist_len <= 1 + plies
    &&& p.halfmove <= plies
}

proof fn lemma_rooted(p: Position, plies: int)
    requires
        rooted(p, plies),
        plies <= 1000,
    ensures
        p.hist_len <= 4096,
{
    reveal(rooted);
}

/// Make a move and keep it.
fn advance(pos: &mut Position, t: &Tables, m: Move, Ghost(plies): Ghost<int>)
    requires
        rooted(*old(pos), plies),
        0 <= plies <= 1000,
        rules::legal(*old(pos), m),
    ensures
        *final(pos) == perft::settled(make::after(*old(pos), m)),
        rooted(*final(pos), plies + 1),
{
    let ghost p = *pos;
    proof {
        reveal(rooted);
        legal::law_legal_is_playable(p, m);
    }
    pos.make(t, m);
    let ghost q = *pos;
    proof {
        make::law_make_is_deterministic(p, m, q, make::after(p, m));
        legal::law_legal_keeps_wf(p, m, q);
    }
    pos.settle();
    proof {
        perft::lemma_settled(q, *pos);
    }
}

/// Search a position in silence, with so many nodes.
fn consult<H: Host>(
    s: &mut Searcher,
    t: &Tables,
    pos: &mut Position,
    nodes: u64,
    out: &mut Out,
    host: &mut H,
    Ghost(plies): Ghost<int>,
) -> (x: Ghost<Ply>)
    requires
        old(s).wf(),
        old(s).silent,
        old(s).start_depth == 0,
        rooted(*old(pos), plies),
        0 <= plies <= 1000,
    ensures
        io::carried(
            old(out).said@,
            final(out).said@,
            old(host).shown(),
            final(host).shown(),
        ),
        final(s).wf(),
        final(s).same_habits(*old(s)),
        *final(pos) == *old(pos),
        final(out)@ == old(out)@,
        judged(x@),
        takes_up(*old(s), x@, nodes),
        x@.p == *old(pos),
        x@.best == final(s).best,
        x@.score == final(s).best_score,
        x@.to == *final(s),
        movegen::move_list(*old(pos), GenKind::All).len() == 0 ==> final(s).best == Move(0),
        movegen::move_list(*old(pos), GenKind::All).len() > 0 ==> rules::legal(
            *old(pos),
            final(s).best,
        ) && final(s).best != Move(0),
{
    let ghost p = *pos;
    let Ghost(o) = search_on(s, t, pos, nodes, out, host, Ghost(plies));
    let ghost x = Ply { p, best: s.best, score: s.best_score as int, from: o, to: *s };
    proof {
        lemma_judged(x, old(out)@, out@, old(host).heard(), host.heard());
    }
    Ghost(x)
}

/// What a silent search comes to.
proof fn lemma_judged(
    x: Ply,
    before: Seq<u8>,
    after: Seq<u8>,
    a: Seq<Heard>,
    b: Seq<Heard>,
)
    requires
        x.p.wf(),
        x.from.silent,
        x.to.same_orders(x.from),
        x.to.best == x.best,
        x.to.best_score == x.score,
        think::searched(x.from, x.to, x.p, before, after, a, b),
    ensures
        judged(x),
        after == before,
        x.to.lasting(x.from),
        movegen::move_list(x.p, GenKind::All).len() == 0 ==> x.best == Move(0),
        movegen::move_list(x.p, GenKind::All).len() > 0 ==> rules::legal(x.p, x.best) && x.best
            != Move(0),
{
    reveal(judged);
    if movegen::move_list(x.p, GenKind::All).len() > 0 {
        crate::quiet::lemma_not_null(x.p, x.best);
    }
}

/// Search on with so many nodes.
fn search_on<H: Host>(
    s: &mut Searcher,
    t: &Tables,
    pos: &mut Position,
    nodes: u64,
    out: &mut Out,
    host: &mut H,
    Ghost(plies): Ghost<int>,
) -> (o: Ghost<Searcher>)
    requires
        old(s).wf(),
        old(s).start_depth == 0,
        rooted(*old(pos), plies),
        0 <= plies <= 1000,
    ensures
        io::carried(
            old(out).said@,
            final(out).said@,
            old(host).shown(),
            final(host).shown(),
        ),
        final(s).wf(),
        final(s).same_orders(o@),
        uci::ordered(
            *old(s),
            o@,
            (Bounds { nodes: nodes as int, ..orders::unlimited() }),
        ),
        *final(pos) == *old(pos),
        old(pos).wf(),
        think::searched(
            o@,
            *final(s),
            *old(pos),
            old(out)@,
            final(out)@,
            old(host).heard(),
            final(host).heard(),
        ),
{
    let mut limits = Limits::new();
    limits.nodes = nodes;
    proof {
        assert(limits@ =~= (Bounds { nodes: nodes as int, ..orders::unlimited() }));
    }
    s.limits = limits;
    let ghost o = *s;
    proof {
        reveal(rooted);
        assert(o@ =~= (World { limits, ..old(s)@ }));
    }
    let ghost p = *pos;
    s.go(pos, t, out, host);
    proof {
        perft::lemma_settled(p, *pos);
    }
    Ghost(o)
}

/// Record a position.
fn record(pos: &Position, score: i32, Ghost(plies): Ghost<int>) -> (r: Rec)
    requires
        rooted(*pos, plies),
        -2000 < score < 2000,
    ensures
        r.wf(),
        r@ == (Note {
            fen: fen::fen_text(*pos),
            score: uci::white_score(*pos, score as int),
        }),
{
    proof {
        reveal(rooted);
    }
    let mut fen: [u8; 96] = [0;96];
    let len = write_fen(pos, &mut fen);
    let white = if pos.stm == 0 {
        score
    } else {
        -score
    };
    Rec { fen, len, score: white }
}

/// Play a game from `pos` to its end.
fn play_out<H: Host>(
    s: &mut Searcher,
    t: &Tables,
    pos: &mut Position,
    seen: &mut Seen,
    nodes: u64,
    out: &mut Out,
    host: &mut H,
) -> (r: (Vec<Rec>, u8, Ghost<Seq<Ply>>))
    requires
        old(s).wf(),
        old(s).silent,
        old(s).start_depth == 0,
        old(seen).wf(),
        rooted(*old(pos), 100),
    ensures
        io::carried(
            old(out).said@,
            final(out).said@,
            old(host).shown(),
            final(host).shown(),
        ),
        final(s).wf(),
        final(s).same_habits(*old(s)),
        final(seen).wf(),
        final(out)@ == old(out)@,
        forall|i: int| 0 <= i < r.0@.len() ==> (#[trigger] r.0@[i]).wf(),
        game_of(r.2@, *old(pos), *old(s), *final(s), nodes, r.1 as int),
        (final(seen)@, notes(r.0@)) == harvest(r.2@, old(seen)@, r.2@.len()),
{
    let ghost start = *pos;
    let ghost mut l: Seq<Ply> = Seq::empty();
    let mut recs: Vec<Rec> = Vec::new();
    let mut adjudicate: i32 = 0;
    let mut i: usize = 0;
    proof {
        assert(follows(l, start)) by {
            reveal(follows);
        }
        assert(chained(l, *s, nodes)) by {
            reveal(chained);
        }
        assert(notes(recs@) =~= Seq::<Note>::empty());
    }
    while i < MAX_GAME
        invariant
            io::carried(old(out).said@, out.said@, old(host).shown(), host.shown()),
            i <= 400,
            i == l.len(),
            s.wf(),
            s.silent,
            s.start_depth == 0,
            s.same_habits(*old(s)),
            seen.wf(),
            out@ == old(out)@,
            start == *old(pos),
            rooted(*pos, 100 + i),
            *pos == outcome(l, start),
            follows(l, start),
            chained(l, *old(s), nodes),
            *s == left(l, *old(s)),
            forall|j: int| 0 <= j < l.len() ==> !#[trigger] decided(l, j),
            adjudicate == lopsided(l, i as nat),
            0 <= adjudicate < 4,
            forall|j: int| 0 <= j < recs@.len() ==> (#[trigger] recs@[j]).wf(),
            (seen@, notes(recs@)) == harvest(l, old(seen)@, i as nat),
        decreases 400 - i,
    {
        proof {
            lemma_rooted(*pos, 100 + i);
        }
        if pos.is_draw(0) || pos.is_material_draw() {
            proof {
                lemma_ends(l, start, 1);
            }
            return (recs, 1, Ghost(l));
        }
        let ghost p = *pos;
        let Ghost(x) = consult(s, t, pos, nodes, out, host, Ghost(100 + i));
        if s.best.is_null() {
            let result = if pos.in_check() {
                if pos.stm == 0 {
                    0
                } else {
                    2
                }
            } else {
                1
            };
            proof {
                lemma_ends(l, start, result as int);
            }
            return (recs, result, Ghost(l));
        }
        let score = s.best_score;
        let best = s.best;
        let ghost m = l.push(x);
        proof {
            lemma_harvest(l, m, old(seen)@, i as nat);
            lemma_lopsided(l, m, i as nat);
            lemma_follows(l, x, start);
            lemma_chained(l, *old(s), x, nodes);
        }
        if is_telling(pos, best, score, i) {
            let ghost before = notes(recs@);
            if seen.first_sighting(pos.key) {
                let rec = record(pos, score, Ghost(100 + i));
                let ghost y = rec@;
                recs.push(rec);
                proof {
                    assert(notes(recs@) =~= before.push(y));
                }
            }
        }
        proof {
            assert((seen@, notes(recs@)) == harvest(m, old(seen)@, (i + 1) as nat));
        }
        let big = score >= 2000 || score <= -2000;
        if big {
            adjudicate = adjudicate + 1;
        } else {
            adjudicate = 0;
        }
        if (big && adjudicate >= 4) || score >= MATE_IN_MAX || score <= -MATE_IN_MAX {
            let ahead = if pos.stm == 0 {
                score > 0
            } else {
                score < 0
            };
            let result = if ahead {
                2
            } else {
                0
            };
            proof {
                assert(decided(m, i as int));
                assert(m.last() == x);
                lemma_ends(m, start, result as int);
            }
            return (recs, result, Ghost(m));
        }
        proof {
            assert(!decided(m, i as int));
            assert forall|j: int| 0 <= j < m.len() implies !#[trigger] decided(m, j) by {
                if j < i {
                    lemma_lopsided(l, m, (j + 1) as nat);
                    assert(!decided(l, j));
                }
            }
            assert(m.last() == x);
        }
        advance(pos, t, best, Ghost(100 + i));
        proof {
            l = m;
        }
        i = i + 1;
    }
    proof {
        assert(!decided(l, 399));
        lemma_ends(l, start, 1);
    }
    (recs, 1, Ghost(l))
}

proof fn lemma_ends(l: Seq<Ply>, start: Position, result: int)
    requires
        if l.len() > 0 && decided(l, l.len() - 1) {
            result == leader(l.last())
        } else if l.len() >= 400 {
            result == 1
        } else if outcome(l, start).drawn(0) || outcome(l, start).bare() {
            result == 1
        } else {
            movegen::move_list(outcome(l, start), GenKind::All).len() == 0 && result == dead_end(
                outcome(l, start),
            )
        },
    ensures
        ends(l, start, result),
{
    reveal(ends);
}

/// `l` are the plies of a game from `start` that ends with `result`. The
/// searcher was `s` before it and is `e` after it; where the last position has
/// no move, a last search found that out.
pub open spec fn game_of(
    l: Seq<Ply>,
    start: Position,
    s: Searcher,
    e: Searcher,
    nodes: u64,
    result: int,
) -> bool {
    &&& l.len() <= 400
    &&& follows(l, start)
    &&& chained(l, s, nodes)
    &&& ends(l, start, result)
    &&& e == left(l, s) || exists|x: Ply|
        {
            &&& #[trigger] judged(x)
            &&& x.p == outcome(l, start)
            &&& x.best == Move(0)
            &&& takes_up(left(l, s), x, nodes)
            &&& e == x.to
        }
}

proof fn lemma_harvest(a: Seq<Ply>, b: Seq<Ply>, seen: Seq<u64>, n: nat)
    requires
        n <= a.len(),
        n <= b.len(),
        forall|i: int| 0 <= i < n ==> a[i] == b[i],
    ensures
        harvest(a, seen, n) == harvest(b, seen, n),
    decreases n,
{
    if n > 0 {
        lemma_harvest(a, b, seen, (n - 1) as nat);
    }
}

proof fn lemma_lopsided(a: Seq<Ply>, b: Seq<Ply>, n: nat)
    requires
        n <= a.len(),
        n <= b.len(),
        forall|i: int| 0 <= i < n ==> a[i] == b[i],
    ensures
        lopsided(a, n) == lopsided(b, n),
    decreases n,
{
    if n > 0 {
        lemma_lopsided(a, b, (n - 1) as nat);
    }
}

/// A game goes on.
proof fn lemma_follows(l: Seq<Ply>, x: Ply, start: Position)
    requires
        follows(l, start),
        x.p == outcome(l, start),
        rooted(x.p, 100 + l.len() as int),
        rules::legal(x.p, x.best),
        !x.p.drawn(0),
        !x.p.bare(),
        forall|j: int| 0 <= j < l.len() ==> !#[trigger] decided(l, j),
    ensures
        follows(l.push(x), start),
{
    reveal(follows);
    reveal(rooted);
    let m = l.push(x);
    assert forall|i: int| 0 < i < m.len() implies (#[trigger] m[i]).p == perft::settled(
        make::after(m[i - 1].p, m[i - 1].best),
    ) by {
        if i < l.len() {
            assert(m[i] == l[i]);
        }
    }
    assert forall|i: int| 0 <= i < m.len() implies {
        &&& (#[trigger] m[i]).p.wf()
        &&& rules::legal(m[i].p, m[i].best)
        &&& !m[i].p.drawn(0)
        &&& !m[i].p.bare()
    } by {
        if i < l.len() {
            assert(m[i] == l[i]);
        }
    }
    assert forall|i: int| 0 <= i < m.len() - 1 implies !#[trigger] decided(m, i) by {
        lemma_lopsided(l, m, (i + 1) as nat);
        assert(!decided(l, i));
    }
}

/// `n` random moves from `p`: the generator's state and the position they lead
/// to, if the game lasts that long.
pub open spec fn opening(p: Position, x: u64, n: nat) -> (u64, Option<Position>)
    decreases n,
{
    if n == 0 {
        (x, Some(p))
    } else {
        let l = movegen::move_list(p, GenKind::All);
        if l.len() == 0 {
            (x, None)
        } else {
            let y = scrambled(x);
            opening(
                perft::settled(make::after(p, l[(y as int) % (l.len() as int)])),
                y,
                (n - 1) as nat,
            )
        }
    }
}

fn play_opening(pos: &mut Position, t: &Tables, rng: &mut Rng, plies: usize) -> (ok: bool)
    requires
        rooted(*old(pos), 0),
        plies <= 100,
    ensures
        (final(rng).0, if ok {
            Some(*final(pos))
        } else {
            None
        }) == opening(*old(pos), old(rng).0, plies as nat),
        ok ==> rooted(*final(pos), 100),
{
    let ghost goal = opening(*pos, rng.0, plies as nat);
    let mut i: usize = 0;
    while i < plies
        invariant
            i <= plies <= 100,
            rooted(*pos, i as int),
            goal == opening(*pos, rng.0, (plies - i) as nat),
            goal == opening(*old(pos), old(rng).0, plies as nat),
        decreases plies - i,
    {
        proof {
            reveal(rooted);
        }
        let m = random_move(pos, t, rng);
        if m.is_null() {
            proof {
                if movegen::move_list(*pos, GenKind::All).len() > 0 {
                    crate::quiet::lemma_not_null(*pos, m);
                }
            }
            return false;
        }
        advance(pos, t, m, Ghost(i as int));
        i = i + 1;
    }
    proof {
        reveal(rooted);
    }
    true
}

/// The state of a run: random numbers, positions already written, games played.
pub struct Generator {
    pub rng: Rng,
    pub seen: Seen,
    pub games: u64,
}

/// What a game from `p` adds: to the positions seen and to the output. An
/// opening that random play has already decided is thrown away.
pub open spec fn yields(
    p: Position,
    s: Searcher,
    e: Searcher,
    nodes: u64,
    seen: Seq<u64>,
    after: Seq<u64>,
    text: Seq<u8>,
    count: int,
) -> bool {
    exists|x: Ply|
        {
            &&& #[trigger] judged(x)
            &&& takes_up(s, x, nodes)
            &&& x.p == p
            &&& if x.best == Move(0) || geom::abs(x.score) > 400 {
                e == x.to && after == seen && text.len() == 0 && count == 0
            } else {
                exists|l: Seq<Ply>, result: int|
                    {
                        &&& #[trigger] game_of(l, p, x.to, e, nodes, result)
                        &&& after == harvest(l, seen, l.len()).0
                        &&& count == harvest(l, seen, l.len()).1.len()
                        &&& text == data_lines(
                            harvest(l, seen, l.len()).1,
                            result,
                            harvest(l, seen, l.len()).1.len(),
                        )
                    }
            }
        }
}

/// What one game does to a run: `x` is the generator's state after the length
/// of the opening was drawn. The searcher is `s` before the game and `e` after
/// it.
pub open spec fn game_done(
    q: Position,
    nodes: u64,
    o: Generator,
    n: Generator,
    s: Searcher,
    e: Searcher,
    text: Seq<u8>,
    count: int,
) -> bool {
    let x = scrambled(o.rng.0);
    let (y, p) = opening(q, x, (8 + x % 9) as nat);
    &&& n.rng.0 == y
    &&& if p is None {
        e == s && n.seen@ == o.seen@ && text.len() == 0 && count == 0
    } else {
        yields(p->0, s, e, nodes, o.seen@, n.seen@, text, count)
    }
}

/// `n` is the searcher `o` made ready for game number `games`: every sixteenth
/// game starts from nothing, the others from an older table.
pub open spec fn refreshed(games: u64, o: Searcher, n: Searcher) -> bool {
    if games % 16 == 1 {
        &&& n.cleared(Searcher { tt: n.tt, ..o })
        &&& uci::wiped(o@.table, n@.table)
        &&& n@.emptied(World { table: n@.table, ..o@ })
    } else {
        &&& n == (Searcher { tt: n.tt, ..o })
        &&& n@.table == (crate::tt::Table { gen: ((o@.table.gen + 1) % 64) as u8, ..o@.table })
    }
}

/// What a game was made of: the start of the game, what was written, and the
/// searcher before and after.
pub struct Happening {
    pub q: Position,
    pub text: Seq<u8>,
    pub s: Searcher,
    pub e: Searcher,
}

/// `h` is how one game of a run went. The searcher is silent meanwhile.
pub open spec fn happened(
    h: Happening,
    o: Generator,
    n: Generator,
    so: Searcher,
    sn: Searcher,
    nodes: u64,
    before: Seq<u8>,
    after: Seq<u8>,
    count: int,
) -> bool {
    &&& n.games == (o.games + 1) % 0x1_0000_0000_0000_0000
    &&& refreshed(n.games, so, h.s)
    &&& fenlaw::at_start(h.q) && h.q.wf() && h.q.clean()
    &&& game_done(h.q, nodes, o, n, (Searcher { silent: true, ..h.s }), h.e, h.text, count)
    &&& sn == (Searcher { silent: false, ..h.e })
    &&& after == before + h.text
}

/// One game of a run was played and `count` positions written.
#[verifier::opaque]
pub open spec fn played(
    o: Generator,
    n: Generator,
    so: Searcher,
    sn: Searcher,
    nodes: u64,
    before: Seq<u8>,
    after: Seq<u8>,
    count: int,
) -> bool {
    exists|h: Happening| #[trigger] happened(h, o, n, so, sn, nodes, before, after, count)
}

impl Generator {
    pub open spec fn wf(self) -> bool {
        self.seen.wf()
    }

    pub fn new(seed: u64) -> (g: Generator)
        ensures
            g.wf(),
            g.rng.0 == seed | 1,
            g.games == 0,
            forall|i: int| 0 <= i < 4_194_304 ==> g.seen@[i] == 0,
    {
        Generator { rng: Rng::new(seed), seen: Seen::new(), games: 0 }
    }

    /// Wiping the tables every game costs more than the games gain in
    /// independence. A periodic clear is enough to stop one game's tree from
    /// steering the next.
    fn refresh(&mut self, s: &mut Searcher)
        requires
            old(self).wf(),
            old(s).wf(),
        ensures
            final(self).wf(),
            final(self).rng == old(self).rng,
            final(self).seen == old(self).seen,
            final(self).games == (old(self).games + 1) % 0x1_0000_0000_0000_0000,
            final(s).wf(),
            final(s).same_habits(*old(s)),
            refreshed(final(self).games, *old(s), *final(s)),
    {
        self.games = self.games.wrapping_add(1);
        if self.games % 16 == 1 {
            s.tt.clear();
            proof {
                assert(s@ =~= (World { table: s@.table, ..old(s)@ }));
            }
            s.clear();
        } else {
            s.tt.new_search();
            proof {
                assert(s@ =~= (World {
                    table: crate::tt::Table {
                        gen: ((old(s)@.table.gen + 1) % 64) as u8,
                        ..old(s)@.table
                    },
                    ..old(s)@
                }));
            }
        }
    }

    /// Begin a run with `seed`. Positions written by earlier runs are still
    /// known.
    pub fn start(&mut self, seed: u64)
        requires
            old(self).wf(),
        ensures
            final(self).wf(),
            final(self).rng.0 == seed | 1,
            final(self).games == 0,
            final(self).seen == old(self).seen,
    {
        self.rng = Rng::new(seed);
        self.games = 0;
    }

    /// Play one more game of a run, unless `target` positions have been written.
    /// Says how many have been by then.
    pub fn step<H: Host>(
        &mut self,
        s: &mut Searcher,
        t: &Tables,
        nodes: u64,
        out: &mut Out,
        host: &mut H,
        target: u64,
        emitted: u64,
    ) -> (r: Option<u64>)
        requires
            old(self).wf(),
            old(s).wf(),
            old(s).start_depth == 0,
        ensures
            io::carried(
                old(out).said@,
                final(out).said@,
                old(host).shown(),
                final(host).shown(),
            ),
            final(self).wf(),
            final(s).wf(),
            final(s).start_depth == 0,
            r is None <==> emitted >= target,
            r is None ==> *final(self) == *old(self) && *final(s) == *old(s) && final(out)@ == old(
                out,
            )@,
            r matches Some(n) ==> exists|count: int|
                {
                    &&& #[trigger] played(
                        *old(self),
                        *final(self),
                        *old(s),
                        *final(s),
                        nodes,
                        old(out)@,
                        final(out)@,
                        count,
                    )
                    &&& n == clock::min(emitted + count, u64::MAX as int)
                },
    {
        if emitted >= target {
            return None;
        }
        let n = self.game(s, t, nodes, out, host);
        Some(emitted.saturating_add(n))
    }

    /// Play one game and write its positions out. Says how many were written.
    pub fn game<H: Host>(
        &mut self,
        s: &mut Searcher,
        t: &Tables,
        nodes: u64,
        out: &mut Out,
        host: &mut H,
    ) -> (emitted: u64)
        requires
            old(self).wf(),
            old(s).wf(),
            old(s).start_depth == 0,
        ensures
            io::carried(
                old(out).said@,
                final(out).said@,
                old(host).shown(),
                final(host).shown(),
            ),
            final(self).wf(),
            final(s).wf(),
            final(s).same_habits(Searcher { silent: false, ..*old(s) }),
            emitted <= 400,
            played(
                *old(self),
                *final(self),
                *old(s),
                *final(s),
                nodes,
                old(out)@,
                final(out)@,
                emitted as int,
            ),
    {
        self.refresh(s);
        let ghost s1 = *s;
        s.silent = true;
        proof {
            assert(s@ =~= s1@);
        }
        let ghost s2 = *s;
        let mut pos = Position::empty();
        pos.set_startpos(t);
        let ghost q = pos;
        proof {
            assert(rooted(q, 0)) by {
                reveal(rooted);
            }
        }
        let plies = 8 + (self.rng.next() % 9) as usize;
        let ghost mut text: Seq<u8> = Seq::empty();
        let mut emitted: u64 = 0;
        if play_opening(&mut pos, t, &mut self.rng, plies) {
            let (n, Ghost(x)) = self.from_opening(s, t, &mut pos, nodes, out, host);
            emitted = n;
            proof {
                text = x;
            }
        } else {
            proof {
                assert(out@ =~= old(out)@ + text);
            }
        }
        let ghost e = *s;
        s.silent = false;
        proof {
            assert(s@ =~= e@);
            assert(game_done(q, nodes, *old(self), *self, s2, e, text, emitted as int));
            reveal(played);
            assert(happened(
                (Happening { q, text, s: s1, e }),
                *old(self),
                *self,
                *old(s),
                *s,
                nodes,
                old(out)@,
                out@,
                emitted as int,
            ));
        }
        emitted
    }

    /// The game after its opening.
    fn from_opening<H: Host>(
        &mut self,
        s: &mut Searcher,
        t: &Tables,
        pos: &mut Position,
        nodes: u64,
        out: &mut Out,
        host: &mut H,
    ) -> (r: (u64, Ghost<Seq<u8>>))
        requires
            old(self).wf(),
            old(s).wf(),
            old(s).silent,
            old(s).start_depth == 0,
            rooted(*old(pos), 100),
        ensures
            io::carried(
                old(out).said@,
                final(out).said@,
                old(host).shown(),
                final(host).shown(),
            ),
            final(self).wf(),
            final(self).rng == old(self).rng,
            final(self).games == old(self).games,
            final(s).wf(),
            final(s).same_habits(*old(s)),
            r.0 <= 400,
            yields(
                *old(pos),
                *old(s),
                *final(s),
                nodes,
                old(self).seen@,
                final(self).seen@,
                r.1@,
                r.0 as int,
            ),
            final(out)@ == old(out)@ + r.1@,
    {
        let ghost p = *pos;
        let ghost o = out@;
        let Ghost(x) = consult(s, t, pos, nodes, out, host, Ghost(100));
        if s.best.is_null() || s.best_score > 400 || s.best_score < -400 {
            proof {
                assert(judged(x));
                assert(o + Seq::<u8>::empty() =~= o);
            }
            return (0, Ghost(Seq::empty()));
        }
        let (recs, result, l) = play_out(s, t, pos, &mut self.seen, nodes, out, host);
        write_records(&recs, result, out);
        out.flush(host);
        let n = recs.len() as u64;
        let ghost text = data_lines(notes(recs@), result as int, recs@.len());
        proof {
            assert(judged(x));
            assert(game_of(l@, p, x.to, *s, nodes, result as int));
            crate::searchlaw::law_records_are_plies(l@, old(self).seen@, l@.len());
        }
        (n, Ghost(text))
    }
}

} // verus!
