//! Counting the leaves of the game tree.

use vstd::prelude::*;
use vstd::string::*;
use vstd::wrapping::u64_specs;
use crate::clock;
use crate::host::{Heard, Host};
use crate::io;
use crate::io::Out;
use crate::legal;
use crate::make;
use crate::movegen;
use crate::movegen::{generate, GenKind, MoveList};
use crate::moves::Move;
use crate::pos;
use crate::pos::Position;
use crate::rules;
use crate::tables::Tables;

verus! {

broadcast use crate::io::group_carried;

/// The same position as the root of a tree: nothing is left over from moves
/// made before.
pub open spec fn settled(p: Position) -> Position {
    choose|q: Position| #[trigger] settles(p, q)
}

pub open spec fn settles(p: Position, q: Position) -> bool {
    &&& q.clean()
    &&& q == (Position { ply: 0, stack: q.stack, hist: q.hist, ..p })
    &&& forall|i: int| 0 <= i < p.hist_len ==> #[trigger] q.hist@[i] == p.hist@[i]
}

/// There is only one such position.
pub proof fn lemma_settled(p: Position, q: Position)
    requires
        settles(p, q),
        p.hist_len <= 4232,
    ensures
        q == settled(p),
        p.wf() ==> q.wf(),
        p.clean() && p.ply == 0 ==> q == p,
{
    let r = settled(p);
    assert(settles(p, r));
    assert(q.stack =~= r.stack);
    assert(q.hist =~= r.hist);
    assert(q.cells() =~= p.cells());
    if p.clean() && p.ply == 0 {
        assert(q.stack =~= p.stack);
        assert(q.hist =~= p.hist);
    }
}

/// The number of ways a game can go on for `depth` moves.
pub open spec fn leaves(p: Position, depth: int) -> int
    decreases depth, 1int, 0nat,
{
    if depth <= 1 {
        movegen::move_list(p, GenKind::All).len() as int
    } else {
        leaves_of(p, depth, movegen::move_list(p, GenKind::All).len())
    }
}

/// Those that begin with one of the first `n` moves.
pub open spec fn leaves_of(p: Position, depth: int, n: nat) -> int
    decreases depth, 0int, n,
{
    if n == 0 || depth <= 1 {
        0
    } else {
        leaves_of(p, depth, (n - 1) as nat) + leaves(
            make::after(p, movegen::move_list(p, GenKind::All)[n - 1]),
            depth - 1,
        )
    }
}

/// Every line of `depth` moves that is counted move by move fits on the stack. A
/// line that is short enough fits anyway.
pub open spec fn within(p: Position, depth: int) -> bool
    decreases depth, 1int, 0nat,
{
    depth <= 1 || p.ply + depth <= 137 || within_of(
        p,
        depth,
        movegen::move_list(p, GenKind::All).len(),
    )
}

/// Those that begin with one of the first `n` moves do.
pub open spec fn within_of(p: Position, depth: int, n: nat) -> bool
    decreases depth, 0int, n,
{
    n == 0 || depth <= 1 || {
        &&& within_of(p, depth, (n - 1) as nat)
        &&& p.ply < 136
        &&& within(make::after(p, movegen::move_list(p, GenKind::All)[n - 1]), depth - 1)
    }
}

/// The history has grown by no more than the moves on the stack.
pub open spec fn stacked(p: Position) -> bool {
    p.ply <= 136 && p.hist_len <= 4096 + p.ply
}

/// The lines below a move fit, too.
proof fn lemma_within(p: Position, depth: int, i: int, q: Position)
    requires
        within(p, depth),
        depth > 1,
        0 <= i < movegen::move_list(p, GenKind::All).len(),
    ensures
        p.ply < 136,
        q == make::after(p, movegen::move_list(p, GenKind::All)[i]) && q.ply == p.ply + 1
            ==> within(q, depth - 1),
{
    if p.ply + depth > 137 {
        lemma_first(p, depth, (i + 1) as nat, movegen::move_list(p, GenKind::All).len());
    }
}

/// Where the lines of more moves fit, those of fewer do.
proof fn lemma_first(p: Position, depth: int, i: nat, n: nat)
    requires
        within_of(p, depth, n),
        i <= n,
    ensures
        within_of(p, depth, i),
    decreases n,
{
    if i < n && depth > 1 {
        lemma_first(p, depth, i, (n - 1) as nat);
    }
}

/// What a move adds to the count.
pub open spec fn branch(p: Position, m: Move, depth: int) -> int {
    if depth <= 1 {
        1
    } else {
        leaves(make::after(p, m), depth - 1)
    }
}

/// The sum of the first `n` branches.
pub open spec fn branches(p: Position, depth: int, n: nat) -> int
    decreases n,
{
    if n == 0 {
        0
    } else {
        branches(p, depth, (n - 1) as nat) + branch(
            p,
            movegen::move_list(p, GenKind::All)[n - 1],
            depth,
        )
    }
}

/// The branches of a position add up to its count.
pub proof fn law_branches_add_up(p: Position, depth: int)
    ensures
        branches(p, depth, movegen::move_list(p, GenKind::All).len()) == leaves(p, depth),
{
    lemma_branches(p, depth, movegen::move_list(p, GenKind::All).len());
}

proof fn lemma_branches(p: Position, depth: int, n: nat)
    ensures
        depth > 1 ==> branches(p, depth, n) == leaves_of(p, depth, n),
        depth <= 1 ==> branches(p, depth, n) == n,
    decreases n,
{
    if n > 0 {
        lemma_branches(p, depth, (n - 1) as nat);
    }
}

proof fn lemma_count(a: int, b: int)
    ensures
        u64_specs::wrapping_add(clock::cut64(a) as u64, clock::cut64(b) as u64) == clock::cut64(
            a + b,
        ),
{
}

/// Counting below one move: the position is handed back as it came.
fn below(pos: &mut Position, t: &Tables, m: Move, depth: i32, Ghost(i): Ghost<int>) -> (r: u64)
    requires
        old(pos).wf(),
        old(pos).clean(),
        stacked(*old(pos)),
        within(*old(pos), depth as int),
        0 <= i < movegen::move_list(*old(pos), GenKind::All).len(),
        m == movegen::move_list(*old(pos), GenKind::All)[i],
        depth > 1,
        rules::legal(*old(pos), m),
    ensures
        *final(pos) == *old(pos),
        r == clock::cut64(leaves(make::after(*old(pos), m), depth - 1)),
    decreases depth, 0int,
{
    let ghost p = *pos;
    proof {
        lemma_within(p, depth as int, i, p);
    }
    push(pos, t, m);
    proof {
        lemma_within(p, depth as int, i, *pos);
    }
    let r = count(pos, t, depth - 1);
    pop(pos, m, Ghost(p));
    r
}

/// Make a legal move.
fn push(pos: &mut Position, t: &Tables, m: Move)
    requires
        old(pos).wf(),
        old(pos).clean(),
        stacked(*old(pos)),
        old(pos).ply < 136,
        rules::legal(*old(pos), m),
    ensures
        *final(pos) == make::after(*old(pos), m),
        make::made(*old(pos), m, *final(pos)),
        final(pos).sound(),
        final(pos).wf(),
        final(pos).clean(),
        stacked(*final(pos)),
        final(pos).ply == old(pos).ply + 1,
{
    let ghost p = *pos;
    proof {
        legal::law_legal_is_playable(p, m);
    }
    pos.make(t, m);
    proof {
        let q = *pos;
        legal::law_legal_keeps_wf(p, m, q);
        make::law_make_is_deterministic(p, m, q, make::after(p, m));
        assert(q.clean()) by {
            assert(q.stack@.len() == p.stack@.len());
        }
    }
}

/// Take it back.
fn pop(pos: &mut Position, m: Move, Ghost(p): Ghost<Position>)
    requires
        p.wf(),
        p.clean(),
        stacked(p),
        p.ply < 136,
        rules::legal(p, m),
        old(pos).sound(),
        old(pos).wf(),
        make::made(p, m, *old(pos)),
    ensures
        *final(pos) == p,
{
    let ghost q = *pos;
    proof {
        legal::law_legal_is_playable(p, m);
        rules::lemma_takeable(p.cells(), p.stm as int, m);
        pos::lemma_cells(p, m.t());
    }
    pos.unmake(m);
    proof {
        make::law_unmake_restores(p, m, q, *pos);
    }
}

/// Does every line of `depth` moves that is counted move by move fit on the
/// stack? The position is handed back as it came.
pub fn is_within(pos: &mut Position, t: &Tables, depth: i32) -> (r: bool)
    requires
        old(pos).wf(),
        old(pos).clean(),
        stacked(*old(pos)),
    ensures
        *final(pos) == *old(pos),
        r == within(*old(pos), depth as int),
    decreases depth,
{
    if depth <= 1 || depth <= 137 - pos.ply as i32 {
        return true;
    }
    let mut list = MoveList::new();
    generate(pos, t, &mut list, GenKind::All);
    let ghost p = *pos;
    let mut i: usize = 0;
    while i < list.n
        invariant
            *pos == p,
            *old(pos) == p,
            p.wf(),
            p.clean(),
            stacked(p),
            depth > 1,
            p.ply + depth > 137,
            list.wf(),
            list@ == movegen::move_list(p, GenKind::All),
            i <= list.n,
            within_of(p, depth as int, i as nat),
        decreases list.n - i,
    {
        let m = list.mv[i];
        proof {
            assert(list@.contains(m));
            assert(movegen::move_list(p, GenKind::All)[i as int] == m);
            legal::law_generated_is_legal(p, m);
            if within_of(p, depth as int, list.n as nat) {
                lemma_first(p, depth as int, (i + 1) as nat, list.n as nat);
            }
        }
        if pos.ply >= 136 {
            return false;
        }
        push(pos, t, m);
        let ok = is_within(pos, t, depth - 1);
        pop(pos, m, Ghost(p));
        if !ok {
            return false;
        }
        i = i + 1;
    }
    true
}

fn count(pos: &mut Position, t: &Tables, depth: i32) -> (r: u64)
    requires
        old(pos).wf(),
        old(pos).clean(),
        stacked(*old(pos)),
        within(*old(pos), depth as int),
    ensures
        *final(pos) == *old(pos),
        r == clock::cut64(leaves(*old(pos), depth as int)),
    decreases depth, 1int,
{
    let mut list = MoveList::new();
    generate(pos, t, &mut list, GenKind::All);
    if depth <= 1 {
        return list.n as u64;
    }
    let ghost p = *pos;
    let mut total: u64 = 0;
    let mut i: usize = 0;
    while i < list.n
        invariant
            *pos == p,
            *old(pos) == p,
            p.wf(),
            p.clean(),
            stacked(p),
            within(p, depth as int),
            depth > 1,
            list.wf(),
            list@ == movegen::move_list(p, GenKind::All),
            i <= list.n,
            total == clock::cut64(leaves_of(p, depth as int, i as nat)),
        decreases list.n - i,
    {
        let m = list.mv[i];
        proof {
            assert(list@.contains(m));
            legal::law_generated_is_legal(p, m);
            lemma_count(
                leaves_of(p, depth as int, i as nat),
                leaves(make::after(p, m), depth - 1),
            );
        }
        total = total.wrapping_add(below(pos, t, m, depth, Ghost(i as int)));
        i = i + 1;
    }
    total
}

/// Count the leaves of the game tree, `depth` moves deep. A count that sixty-four
/// bits cannot hold is cut to them.
pub fn perft(pos: &mut Position, t: &Tables, depth: i32) -> (r: u64)
    requires
        old(pos).wf(),
        old(pos).hist_len <= 4096,
        within(settled(*old(pos)), depth as int),
    ensures
        *final(pos) == *old(pos),
        r == clock::cut64(leaves(settled(*old(pos)), depth as int)),
{
    let mut p = pos.clone();
    p.settle();
    proof {
        lemma_settled(*pos, p);
    }
    count(&mut p, t, depth)
}

/// The line on one move of a divided count.
pub open spec fn branch_text(m: Move, n: int) -> Seq<u8> {
    (io::move_text(m) + ": ".spec_bytes() + io::digits(n as nat)).push(10)
}

/// The lines on the first `n` moves.
pub open spec fn branch_lines(p: Position, depth: int, n: nat) -> Seq<u8>
    decreases n,
{
    if n == 0 {
        Seq::empty()
    } else {
        let m = movegen::move_list(p, GenKind::All)[n - 1];
        branch_lines(p, depth, (n - 1) as nat) + branch_text(
            m,
            clock::cut64(branch(p, m, depth)),
        )
    }
}

/// The line on the whole count, which took `ms` milliseconds.
pub open spec fn total_text(total: int, ms: u64) -> Seq<u8> {
    ("nodes ".spec_bytes() + io::digits(total as nat) + " time ".spec_bytes() + io::digits(ms as nat)
        + " nps ".spec_bytes() + io::digits(
        (clock::cut64(total * 1000) / clock::max(ms as int, 1)) as nat,
    )).push(10)
}

fn say_branch<H: Host>(m: Move, n: u64, out: &mut Out, host: &mut H)
    ensures
        final(host).heard() == old(host).heard(),
        io::carried(
            old(out).said@,
            final(out).said@,
            old(host).shown(),
            final(host).shown(),
        ),
        final(out)@ == old(out)@ + branch_text(m, n as int),
        final(out).buf@.len() == 0,
{
    let ghost o = out@;
    out.mv(m);
    out.say(": ");
    out.u(n);
    out.nl(host);
    proof {
        let (x, y, z) = (io::move_text(m), ": ".spec_bytes(), io::digits(n as nat));
        assert((o + x + y + z).push(10) =~= o + (x + y + z).push(10));
    }
}

fn say_total<H: Host>(total: u64, ms: u64, out: &mut Out, host: &mut H)
    ensures
        final(host).heard() == old(host).heard(),
        io::carried(
            old(out).said@,
            final(out).said@,
            old(host).shown(),
            final(host).shown(),
        ),
        final(out)@ == old(out)@ + total_text(total as int, ms),
        final(out).buf@.len() == 0,
{
    let ghost o = out@;
    let span = if ms < 1 {
        1
    } else {
        ms
    };
    let speed = total.wrapping_mul(1000) / span;
    assert(speed == clock::cut64(total * 1000) / clock::max(ms as int, 1));
    out.say("nodes ");
    out.u(total);
    out.say(" time ");
    out.u(ms);
    out.say(" nps ");
    out.u(speed);
    out.nl(host);
    proof {
        let (a, b) = ("nodes ".spec_bytes(), io::digits(total as nat));
        let (c, d) = (" time ".spec_bytes(), io::digits(ms as nat));
        let (e, f) = (" nps ".spec_bytes(), io::digits(speed as nat));
        assert((o + a + b + c + d + e + f).push(10) =~= o + (a + b + c + d + e + f).push(10));
    }
}

/// The clock was read twice after `x` had been heard.
pub open spec fn clocked(x: Seq<Heard>, t0: u64, t1: u64) -> Seq<Heard> {
    x.push(Heard::Time(t0)).push(Heard::Time(t1))
}

/// Count the leaves below every move, and say so.
pub fn perft_divide<H: Host>(
    pos: &mut Position,
    t: &Tables,
    depth: i32,
    out: &mut Out,
    host: &mut H,
) -> (total: u64)
    requires
        old(pos).wf(),
        old(pos).hist_len <= 4096,
        within(settled(*old(pos)), depth as int),
    ensures
        io::carried(
            old(out).said@,
            final(out).said@,
            old(host).shown(),
            final(host).shown(),
        ),
        *final(pos) == *old(pos),
        total == clock::cut64(leaves(settled(*old(pos)), depth as int)),
        final(out).buf@.len() == 0,
        exists|t0: u64, t1: u64|
            {
                &&& final(host).heard() == #[trigger] clocked(old(host).heard(), t0, t1)
                &&& final(out)@ == old(out)@ + branch_lines(
                    settled(*old(pos)),
                    depth as int,
                    movegen::move_list(settled(*old(pos)), GenKind::All).len(),
                ) + total_text(total as int, clock::less(t1 as int, t0 as int) as u64)
            },
{
    let t0 = host.now_ms();
    let mut work = pos.clone();
    work.settle();
    proof {
        lemma_settled(*pos, work);
    }
    let ghost p = work;
    let ghost o = out@;
    let mut list = MoveList::new();
    generate(&work, t, &mut list, GenKind::All);
    let mut total: u64 = 0;
    let mut i: usize = 0;
    proof {
        assert(o + branch_lines(p, depth as int, 0) =~= o);
    }
    while i < list.n
        invariant
            io::carried(old(out).said@, out.said@, old(host).shown(), host.shown()),
            host.heard() == old(host).heard().push(Heard::Time(t0)),
            work == p,
            p.wf(),
            p.clean(),
            stacked(p),
            within(p, depth as int),
            list.wf(),
            list@ == movegen::move_list(p, GenKind::All),
            i <= list.n,
            total == clock::cut64(branches(p, depth as int, i as nat)),
            out@ == o + branch_lines(p, depth as int, i as nat),
        decreases list.n - i,
    {
        let m = list.mv[i];
        proof {
            assert(list@.contains(m));
            legal::law_generated_is_legal(p, m);
            lemma_count(branches(p, depth as int, i as nat), branch(p, m, depth as int));
        }
        let n = if depth <= 1 {
            1
        } else {
            below(&mut work, t, m, depth, Ghost(i as int))
        };
        total = total.wrapping_add(n);
        say_branch(m, n, out, host);
        proof {
            let x = branch_lines(p, depth as int, i as nat);
            let y = branch_text(m, n as int);
            assert(o + x + y =~= o + (x + y));
        }
        i = i + 1;
    }
    proof {
        law_branches_add_up(p, depth as int);
    }
    let now = host.now_ms();
    let ms = now.saturating_sub(t0);
    say_total(total, ms, out, host);
    proof {
        assert(host.heard() == clocked(old(host).heard(), t0, now));
    }
    total
}

} // verus!
