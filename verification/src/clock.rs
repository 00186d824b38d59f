//! When a search ends: time budgets, node budgets and the outside world.

use vstd::prelude::*;
use vstd::wrapping::u64_specs;
use crate::host;
use crate::host::{Heard, Host};
use crate::mind::{Limits, Searcher, World, MAX_THREADS};

verus! {

broadcast use {crate::host::group_heard, crate::tt::group_led};

/// `a - b`, or nothing.
pub open spec fn less(a: int, b: int) -> int {
    if a > b {
        a - b
    } else {
        0
    }
}

pub open spec fn max(a: int, b: int) -> int {
    if a < b {
        b
    } else {
        a
    }
}

pub open spec fn min(a: int, b: int) -> int {
    if a < b {
        a
    } else {
        b
    }
}

fn max_u64(a: u64, b: u64) -> (r: u64)
    ensures
        r == max(a as int, b as int),
{
    if a < b {
        b
    } else {
        a
    }
}

fn min_u64(a: u64, b: u64) -> (r: u64)
    ensures
        r == min(a as int, b as int),
{
    if a < b {
        a
    } else {
        b
    }
}

/// A number cut to sixty-four bits.
pub open spec fn cut64(x: int) -> int {
    x % 0x1_0000_0000_0000_0000
}

/// The time a side has left for the game, less the overhead.
pub open spec fn avail(l: Limits, stm: int, overhead: u64) -> int {
    less(l.time@[stm] as int, overhead as int)
}

/// The moves that the time left has to last for. Without a count, the game is
/// taken to have this many moves still.
pub open spec fn moves_to_go(l: Limits) -> int {
    if l.movestogo > 0 {
        min(l.movestogo as int, 50)
    } else {
        40
    }
}

/// The share of the time left that one move should take.
pub open spec fn optimum(l: Limits, stm: int, overhead: u64) -> int {
    cut64(avail(l, stm, overhead) / moves_to_go(l) + cut64(l.inc@[stm] * 3) / 4)
}

/// The budget after which no new iteration starts. The greatest value means no
/// limit.
pub open spec fn soft_budget(l: Limits, stm: int, overhead: u64) -> int {
    if l.movetime > 0 {
        max(less(l.movetime as int, overhead as int), 1)
    } else if l.time@[stm] == 0 {
        u64::MAX as int
    } else {
        // Never spend more than a fraction of what is left; losing on time is
        // worth less than any evaluation gain.
        max(min(optimum(l, stm, overhead), avail(l, stm, overhead) / 2), 1)
    }
}

/// The budget after which a running iteration is abandoned.
pub open spec fn hard_budget(l: Limits, stm: int, overhead: u64) -> int {
    if l.movetime > 0 {
        max(less(l.movetime as int, overhead as int), 1)
    } else if l.time@[stm] == 0 {
        u64::MAX as int
    } else {
        max(
            min(cut64(optimum(l, stm, overhead) * 4), cut64(avail(l, stm, overhead) * 3) / 4),
            1,
        )
    }
}

/// A move never plans to use more than half the clock, nor ever uses more than
/// three quarters of it, as long as there are a few milliseconds to share.
pub proof fn law_time_is_kept(l: Limits, stm: int, overhead: u64)
    requires
        0 <= stm < 2,
        l.movetime == 0,
        overhead + 4 <= l.time@[stm] <= u64::MAX / 3,
    ensures
        1 <= soft_budget(l, stm, overhead) <= (l.time@[stm] - overhead) / 2,
        1 <= hard_budget(l, stm, overhead) <= (l.time@[stm] - overhead) * 3 / 4,
{
}

/// The nodes published by the first `n` threads.
pub open spec fn node_sum(published: Seq<u64>, n: nat) -> int
    decreases n,
{
    if n == 0 {
        0
    } else {
        node_sum(published, (n - 1) as nat) + published[n - 1]
    }
}

impl World {
    /// Total nodes across every thread taking part in the current search.
    pub open spec fn node_total(self, threads: int) -> int {
        cut64(node_sum(self.published, max(1, min(threads, 8)) as nat))
    }

    /// The node count republished, every thousand nodes or so.
    #[verifier::opaque]
    pub open spec fn ticked(self) -> World {
        if self.nodes % 1024 == 0 {
            World { published: self.published.update(self.id as int, self.nodes as u64), ..self }
        } else {
            self
        }
    }

    /// One more node was visited, at `ply`. A single-threaded search stops before
    /// its counter overflows; others let it wrap.
    #[verifier::opaque]
    pub open spec fn counted(self, ply: int) -> World {
        World {
            nodes: if self.threads <= 1 {
                self.nodes + 1
            } else {
                cut64(self.nodes + 1)
            },
            seldepth: max(self.seldepth as int, ply) as usize,
            ..self
        }
    }
}

/// Total nodes across every thread taking part in the current search.
pub fn total_nodes(s: &Searcher, threads: usize) -> (r: u64)
    requires
        s.wf(),
    ensures
        r == s@.node_total(threads as int),
{
    let n = if threads < 1 {
        1
    } else if threads > MAX_THREADS {
        MAX_THREADS
    } else {
        threads
    };
    let mut sum: u64 = 0;
    let mut i: usize = 0;
    while i < n
        invariant
            s.wf(),
            i <= n <= 8,
            sum == cut64(node_sum(s@.published, i as nat)),
        decreases n - i,
    {
        proof {
            lemma_carry(node_sum(s@.published, i as nat), s.published@[i as int] as int);
        }
        sum = sum.wrapping_add(s.published[i]);
        i = i + 1;
    }
    sum
}

/// `x` times a small number, cut to sixty-four bits.
fn times(x: u64, n: u64) -> (r: u64)
    requires
        n == 3 || n == 4,
    ensures
        r == cut64(x * n),
{
    x.wrapping_mul(n)
}

/// The share of the time left that one move should take.
fn share(l: &Limits, stm: usize, avail: u64) -> (r: u64)
    requires
        stm < 2,
    ensures
        r == cut64(avail as int / moves_to_go(*l) + cut64(l.inc@[stm as int] * 3) / 4),
{
    let mtg = if l.movestogo > 0 {
        min_u64(l.movestogo, 50)
    } else {
        40
    };
    let part = avail / mtg;
    let inc = times(l.inc[stm], 3) / 4;
    part.wrapping_add(inc)
}

/// The soft and the hard budget of a search.
fn budgets(l: &Limits, stm: usize, overhead: u64) -> (r: (u64, u64))
    requires
        stm < 2,
    ensures
        r.0 == soft_budget(*l, stm as int, overhead),
        r.1 == hard_budget(*l, stm as int, overhead),
{
    if l.movetime > 0 {
        let t = max_u64(l.movetime.saturating_sub(overhead), 1);
        return (t, t);
    }
    if l.time[stm] == 0 {
        return (u64::MAX, u64::MAX);
    }
    let avail = l.time[stm].saturating_sub(overhead);
    let optimum = share(l, stm, avail);
    let soft = max_u64(min_u64(optimum, avail / 2), 1);
    let hard = max_u64(min_u64(times(optimum, 4), times(avail, 3) / 4), 1);
    (soft, hard)
}

impl Searcher {
    /// Milliseconds since the search began.
    #[inline(always)]
    pub fn elapsed(&self, now: u64) -> (r: u64)
        ensures
            r == less(now as int, self.start as int),
    {
        now.saturating_sub(self.start)
    }

    /// Start the clock and share out the time.
    pub fn set_clocks(&mut self, now: u64, stm: usize)
        requires
            stm < 2,
        ensures
            final(self).start == now,
            final(self).soft == soft_budget(old(self).limits, stm as int, old(self).move_overhead),
            final(self).hard == hard_budget(old(self).limits, stm as int, old(self).move_overhead),
            *final(self) == (Searcher {
                start: final(self).start,
                soft: final(self).soft,
                hard: final(self).hard,
                ..*old(self)
            }),
    {
        let (soft, hard) = budgets(&self.limits, stm, self.move_overhead);
        self.start = now;
        self.soft = soft;
        self.hard = hard;
    }

    /// A thousand nodes have passed since the budgets were last looked at.
    pub open spec fn due(self) -> bool {
        self.nodes % 1024 == 0
    }

    /// The node budget is spent, which is looked at every node.
    pub open spec fn spent(self) -> bool {
        self.threads <= 1 && self.nodes >= self.limits.nodes
    }

    /// The clock is asked only where there is a time limit; the greatest budget
    /// means none.
    pub open spec fn timed(self) -> bool {
        self.id == 0 && !self.limits.infinite && self.hard != u64::MAX
    }

    /// Only a search driven by a controller listens to one.
    pub open spec fn listens(self) -> bool {
        self.id == 0 && !self.silent && !self.ignore_stdin
    }

    /// The node budget is spent, by this thread alone or by all of them.
    pub open spec fn over(self) -> bool {
        if self.threads <= 1 {
            self.nodes >= self.limits.nodes
        } else {
            self@.node_total(self.threads as int) >= self.limits.nodes
        }
    }

    /// Nothing but the node budget can stop the search.
    pub open spec fn left_alone(self) -> bool {
        self.threads <= 1 && !self.stopping && !self.timed() && !self.listens()
    }

    /// Where nothing but its budget could stop the search and it did, what was
    /// asked for takes more nodes than there were.
    pub open spec fn cut_short(self, o: Searcher, goal: World) -> bool {
        self.stop && !o.stop && o.left_alone() ==> goal.nodes > o.limits.nodes
    }

    /// What may stop a search: nothing but the order to stop, a time limit, a
    /// controller, or a spent node budget. Once stopped it stays so, a
    /// single-threaded search never goes over its budget, and the table is only
    /// ever stored in.
    pub open spec fn heeds(self, o: Searcher) -> bool {
        &&& o.threads <= 1 && o.nodes <= o.limits.nodes ==> self.nodes <= o.limits.nodes
        &&& o.tt@.led_to(self.tt@)
        &&& o.stop ==> self.stop && self.nodes == o.nodes && self.published == o.published
        &&& self.stopping ==> o.stopping || self.stop
        &&& self.stop && !o.stop ==> o.stopping || self.timed() || self.listens() || self.over()
    }

    /// What is asked once the budgets are due to be looked at, and answered `now`
    /// and `halt`: the time where there is a time limit, and the controller where
    /// there is one.
    pub open spec fn queries(self, now: u64, halt: bool) -> Seq<Heard> {
        let asks = self.id == 0 && !self.stopping;
        (if asks && self.timed() {
            seq![Heard::Time(now)]
        } else {
            Seq::empty()
        }) + (if asks && self.listens() {
            seq![Heard::Halt(halt)]
        } else {
            Seq::empty()
        })
    }

    /// A search that began as `o`, when `a` had been heard, heard `b` on the way
    /// here. It goes on exactly as long as no answer gives a reason to end:
    /// besides the answers only an order to stop or a spent budget ends it, and
    /// then nothing more is asked.
    pub open spec fn minded(self, o: Searcher, a: Seq<Heard>, b: Seq<Heard>) -> bool {
        &&& host::grew(a, b)
        &&& o.stop ==> b == a
        &&& !self.stop ==> host::undisturbed(o.start, o.hard, a, b)
        &&& self.stop && !o.stop && host::undisturbed(o.start, o.hard, a, b) ==> o.stopping || self.over()
    }

    /// Given the time and whether the controller spoke up, does the search end?
    pub open spec fn ends(self, now: u64, halt: bool) -> bool {
        ||| self.stopping
        ||| self.id == 0 && self.threads > 1 && (World {
            published: self.published@.update(self.id as int, self.nodes),
            ..self@
        }).node_total(self.threads as int) >= self.limits.nodes
        ||| self.timed() && less(now as int, self.start as int) >= self.hard
        ||| self.listens() && halt
    }

    /// Look at every budget, once the time and the controller's word are in.
    fn decide(&mut self, now: u64, halt: bool)
        requires
            old(self).wf(),
            !old(self).stop,
            old(self).due(),
        ensures
            final(self).wf(),
            final(self)@ == old(self)@.ticked(),
            final(self).kept(*old(self)),
            final(self).stop == old(self).ends(now, halt),
            final(self).stopping == (old(self).stopping || final(self).stop),
            final(self).nodes == old(self).nodes,
            final(self).tt == old(self).tt,
            final(self).pv == old(self).pv,
            final(self).pv_len == old(self).pv_len,
    {
        let (id, nodes) = (self.id, self.nodes);
        self.published.set(id, nodes);
        proof {
            reveal(World::ticked);
            assert(self@ =~= old(self)@.ticked());
            assert(self@ =~= (World {
                published: old(self).published@.update(old(self).id as int, old(self).nodes),
                ..old(self)@
            }));
        }
        if self.stopping {
            self.stop = true;
            return ;
        }
        if self.id != 0 {
            return ;
        }
        if self.threads > 1 && total_nodes(self, self.threads) >= self.limits.nodes {
            self.stop = true;
        }
        if !self.limits.infinite && self.hard != u64::MAX && self.elapsed(now) >= self.hard {
            self.stop = true;
        }
        if !self.silent && !self.ignore_stdin && halt {
            self.stop = true;
        }
        if self.stop {
            self.stopping = true;
        }
    }

    /// A single-threaded search keeps its exact node accounting: its node limit
    /// lands on the node. Everything else is looked at every thousand nodes.
    pub fn check_stop<H: Host>(&mut self, host: &mut H)
        requires
            old(self).wf(),
        ensures
            final(host).shown() == old(host).shown(),
            final(self).minded(*old(self), old(host).heard(), final(host).heard()),
            final(self).wf(),
            final(self).kept(*old(self)),
            old(self).stop ==> *final(self) == *old(self),
            !old(self).stop && old(self).spent() ==> final(self).stop && final(self)@ == old(self)@,
            !old(self).stop && !old(self).spent() ==> final(self)@ == old(self)@.ticked(),
            !old(self).stop && !old(self).spent() && !old(self).due() ==> !final(self).stop,
            old(self).stop || old(self).spent() || !old(self).due() ==> final(host).heard() == old(
                host,
            ).heard(),
            !old(self).stop && !old(self).spent() && old(self).due() ==> exists|now: u64, halt: bool|
                {
                    &&& final(self).stop == #[trigger] old(self).ends(now, halt)
                    &&& final(host).heard() == old(host).heard() + old(self).queries(now, halt)
                },
            final(self).heeds(*old(self)),
            final(self).nodes == old(self).nodes,
            final(self).pv == old(self).pv,
            final(self).pv_len == old(self).pv_len,
    {
        proof {
            reveal(World::ticked);
        }
        if self.stop {
            return ;
        }
        if self.threads <= 1 && self.nodes >= self.limits.nodes {
            self.stop = true;
            return ;
        }
        if self.nodes % 1024 != 0 {
            return ;
        }
        let ghost a = host.heard();
        let asks = self.id == 0 && !self.stopping;
        let now = if asks && !self.limits.infinite && self.hard != u64::MAX {
            host.now_ms()
        } else {
            0
        };
        let halt = if asks && !self.silent && !self.ignore_stdin {
            host.interrupted()
        } else {
            false
        };
        proof {
            let (x, y) = (Heard::Time(now), Heard::Halt(halt));
            host::lemma_one_more(self.start, self.hard, a, x);
            host::lemma_one_more(self.start, self.hard, a, y);
            host::lemma_one_more(self.start, self.hard, a.push(x), y);
            assert(host.heard() =~= a + self.queries(now, halt));
        }
        self.decide(now, halt);
    }

    /// One more node was visited, at `ply`.
    #[inline(always)]
    pub(crate) fn count(&mut self, ply: usize)
        requires
            old(self).wf(),
            !old(self).spent(),
        ensures
            final(self).wf(),
            final(self)@ == old(self)@.counted(ply as int),
            final(self).kept(*old(self)),
            final(self).threads <= 1 ==> final(self).nodes == old(self).nodes + 1,
            final(self).steady(Searcher { nodes: final(self).nodes, ..*old(self) }),
    {
        self.nodes = self.nodes.wrapping_add(1);
        if ply > self.seldepth {
            self.seldepth = ply;
        }
        proof {
            reveal(World::counted);
            assert(self@ =~= old(self)@.counted(ply as int));
        }
    }
}

/// Reducing early does not change the remainder.
proof fn lemma_carry(a: int, b: int)
    requires
        0 <= b <= u64::MAX,
    ensures
        u64_specs::wrapping_add((a % 0x1_0000_0000_0000_0000) as u64, b as u64) == (a + b)
            % 0x1_0000_0000_0000_0000,
{
}

} // verus!
