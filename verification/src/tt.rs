//! Transposition table.
//!
//! Clusters of four entries, two words each, so that a cluster is one cache
//! line. Everything an entry says is packed into its second word, and the first
//! holds the position key exclusive-ored with that word. A reader recovers the
//! key from the pair, so two words that do not belong to the same write
//! reconstruct a key that matches nothing and are treated as a miss.

use vstd::prelude::*;
use crate::eval;
use crate::eval::{MATE, MATE_IN_MAX};
use crate::moves::Move;

verus! {

pub const BOUND_NONE: u8 = 0;

pub const BOUND_UPPER: u8 = 1;

pub const BOUND_LOWER: u8 = 2;

pub const BOUND_EXACT: u8 = 3;

/// Entries per cluster.
pub const CLUSTER: usize = 4;

/// The table: `mem` holds the two words of every entry side by side.
pub struct Tt {
    pub mem: Vec<u64>,
    pub clusters: u64,
    pub gen: u8,
}

/// The words of a table.
#[verifier::ext_equal]
pub struct Table {
    pub mem: Seq<u64>,
    pub clusters: u64,
    pub gen: u8,
}

/// What a probe finds.
pub struct Hit {
    pub mv: Move,
    pub score: i32,
    pub eval: i32,
    pub depth: i32,
    pub bound: u8,
}

// ---------------------------------------------------------------------------
// The data word: move 16, score 16, eval 16, depth 8, generation 6, bound 2
// ---------------------------------------------------------------------------

/// A number cut to its low sixteen bits, with sign.
pub open spec fn cut16(x: int) -> int {
    let r = x % 65536;
    if r < 32768 {
        r
    } else {
        r - 65536
    }
}

/// A number cut to its low eight bits, with sign.
pub open spec fn cut8(x: int) -> int {
    let r = x % 256;
    if r < 128 {
        r
    } else {
        r - 256
    }
}

#[verifier::opaque]
pub open spec fn packed(mv: int, score: int, eval: int, depth: int, gb: int) -> int {
    mv + score % 65536 * 65536 + eval % 65536 * 4294967296 + depth % 256 * 281474976710656 + gb
        * 72057594037927936
}

#[verifier::opaque]
pub open spec fn mv_in(d: u64) -> int {
    (d % 65536) as int
}

#[verifier::opaque]
pub open spec fn score_in(d: u64) -> int {
    cut16((d / 65536 % 65536) as int)
}

#[verifier::opaque]
pub open spec fn eval_in(d: u64) -> int {
    cut16((d / 4294967296 % 65536) as int)
}

#[verifier::opaque]
pub open spec fn depth_in(d: u64) -> int {
    cut8((d / 281474976710656 % 256) as int)
}

#[verifier::opaque]
pub open spec fn bound_in(d: u64) -> int {
    (d / 72057594037927936 % 4) as int
}

#[verifier::opaque]
pub open spec fn gen_in(d: u64) -> int {
    (d / 288230376151711744) as int
}

/// Nothing is lost in packing but what does not fit.
pub proof fn law_pack_round_trip(mv: int, score: int, eval: int, depth: int, gen: int, bound: int)
    requires
        0 <= mv < 65536,
        0 <= gen < 64,
        0 <= bound < 4,
    ensures
        ({
            let d = packed(mv, score, eval, depth, gen * 4 + bound);
            &&& 0 <= d <= u64::MAX
            &&& mv_in(d as u64) == mv
            &&& score_in(d as u64) == cut16(score)
            &&& eval_in(d as u64) == cut16(eval)
            &&& depth_in(d as u64) == cut8(depth)
            &&& gen_in(d as u64) == gen
            &&& bound_in(d as u64) == bound
        }),
{
    reveal(packed);
    reveal(mv_in);
    reveal(score_in);
    reveal(eval_in);
    reveal(depth_in);
    reveal(bound_in);
    reveal(gen_in);
    let (s, e, x, g) = (score % 65536, eval % 65536, depth % 256, gen * 4 + bound);
    let d = packed(mv, score, eval, depth, g);
    let r3 = x + g * 256;
    let r2 = e + r3 * 65536;
    let r1 = s + r2 * 65536;
    assert(d == mv + r1 * 65536);
    assert(0 <= d <= u64::MAX);
    lemma_split(mv, 65536, r1);
    lemma_split(s, 65536, r2);
    lemma_split(e, 65536, r3);
    lemma_split(x, 256, g);
    lemma_split(mv + s * 65536, 4294967296, r2);
    lemma_split(mv + s * 65536 + e * 4294967296, 281474976710656, r3);
    lemma_split(
        mv + s * 65536 + e * 4294967296 + x * 281474976710656,
        72057594037927936,
        g,
    );
    lemma_split(bound, 4, gen);
    lemma_split(
        mv + s * 65536 + e * 4294967296 + x * 281474976710656 + bound * 72057594037927936,
        288230376151711744,
        gen,
    );
}

/// The two parts of a number written in base `m`.
proof fn lemma_split(a: int, m: int, r: int)
    requires
        0 <= a < m,
    ensures
        (a + r * m) % m == a,
        (a + r * m) / m == r,
{
    vstd::arithmetic::div_mod::lemma_fundamental_div_mod_converse(a + r * m, m, r, a);
}

/// Two words that come from different writes never pass for one entry: the key
/// they reconstruct is the right one only if the data words are the same.
pub proof fn law_torn_entries_miss(key: u64, d1: u64, d2: u64)
    ensures
        (key ^ d1) ^ d2 == key <==> d1 == d2,
{
    assert((key ^ d1) ^ d2 == key <==> d1 == d2) by (bit_vector);
}

/// Mate scores are stored relative to the node, not the root, or a transposed
/// position would report the wrong distance to mate.
pub open spec fn rebased(score: int, ply: int) -> int {
    if score >= 31872 {
        score + ply
    } else if score <= -31872 {
        score - ply
    } else {
        score
    }
}

pub open spec fn unbased(score: int, ply: int) -> int {
    if score >= 31872 {
        eval::min(score - ply, 32000)
    } else if score <= -31872 {
        -eval::min(-(score + ply), 32000)
    } else {
        score
    }
}

/// A score stored at a ply and read at the same ply comes back as it was.
pub proof fn law_mate_scores_round_trip(score: int, ply: int)
    requires
        -32000 <= score <= 32000,
        0 <= ply <= 767,
    ensures
        unbased(cut16(rebased(score, ply)), ply) == score,
{
}

#[inline(always)]
fn to_tt(score: i32, ply: usize) -> (r: i64)
    requires
        ply <= i32::MAX,
    ensures
        r == rebased(score as int, ply as int),
{
    if score >= MATE_IN_MAX {
        score as i64 + ply as i64
    } else if score <= -MATE_IN_MAX {
        score as i64 - ply as i64
    } else {
        score as i64
    }
}

#[inline(always)]
fn from_tt(score: i32, ply: usize) -> (r: i32)
    requires
        -32768 <= score <= 32767,
        ply <= i32::MAX,
    ensures
        r == unbased(score as int, ply as int),
{
    if score >= MATE_IN_MAX {
        let x = score - ply as i32;
        if x < MATE {
            x
        } else {
            MATE
        }
    } else if score <= -MATE_IN_MAX {
        let x = score + ply as i32;
        if x > -MATE {
            x
        } else {
            -MATE
        }
    } else {
        score
    }
}

fn low16(x: i64) -> (r: u64)
    ensures
        r == x % 65536,
{
    let m = x % 65536;
    if m < 0 {
        (m + 65536) as u64
    } else {
        m as u64
    }
}

fn low8(x: i32) -> (r: u64)
    ensures
        r == x % 256,
{
    let m = x % 256;
    if m < 0 {
        (m + 256) as u64
    } else {
        m as u64
    }
}

#[inline(always)]
fn pack(mv: u16, score: i64, eval: i32, depth: i32, gen: u8, bound: u8) -> (r: u64)
    requires
        gen < 64,
        bound < 4,
    ensures
        r == packed(mv as int, score as int, eval as int, depth as int, gen * 4 + bound),
{
    proof {
        law_pack_round_trip(
            mv as int,
            score as int,
            eval as int,
            depth as int,
            gen as int,
            bound as int,
        );
        reveal(packed);
    }
    mv as u64 + low16(score) * 65536 + low16(eval as i64) * 4294967296 + low8(depth) * 281474976710656 + (
    gen as u64 * 4 + bound as u64) * 72057594037927936
}

#[inline(always)]
fn d_mv(d: u64) -> (r: u16)
    ensures
        r == mv_in(d),
{
    proof {
        reveal(mv_in);
    }
    (d % 65536) as u16
}

#[inline(always)]
fn sign16(x: u64) -> (r: i32)
    requires
        x < 65536,
    ensures
        r == cut16(x as int),
{
    if x < 32768 {
        x as i32
    } else {
        x as i32 - 65536
    }
}

#[inline(always)]
fn d_score(d: u64) -> (r: i32)
    ensures
        r == score_in(d),
        -32768 <= r <= 32767,
{
    proof {
        reveal(score_in);
    }
    sign16(d / 65536 % 65536)
}

#[inline(always)]
fn d_eval(d: u64) -> (r: i32)
    ensures
        r == eval_in(d),
        -32768 <= r <= 32767,
{
    proof {
        reveal(eval_in);
    }
    sign16(d / 4294967296 % 65536)
}

#[inline(always)]
fn d_depth(d: u64) -> (r: i32)
    ensures
        r == depth_in(d),
        -128 <= r <= 127,
{
    proof {
        reveal(depth_in);
    }
    let x = (d / 281474976710656 % 256) as i32;
    if x < 128 {
        x
    } else {
        x - 256
    }
}

#[inline(always)]
fn d_bound(d: u64) -> (r: u8)
    ensures
        r == bound_in(d),
        r < 4,
{
    proof {
        reveal(bound_in);
    }
    (d / 72057594037927936 % 4) as u8
}

#[inline(always)]
fn d_gen(d: u64) -> (r: u8)
    ensures
        r == gen_in(d),
        r < 64,
{
    proof {
        reveal(gen_in);
    }
    (d / 288230376151711744) as u8
}

// ---------------------------------------------------------------------------
// The table
// ---------------------------------------------------------------------------

/// The largest power of two that is at most `n`, given that `p` is one.
pub open spec fn is_floor2(p: int, n: int) -> bool {
    &&& is_pow2(p)
    &&& p <= n < 2 * p
}

pub open spec fn is_pow2(p: int) -> bool
    decreases p,
{
    if p <= 1 {
        p == 1
    } else {
        p % 2 == 0 && is_pow2(p / 2)
    }
}

impl Table {
    pub open spec fn wf(self) -> bool {
        &&& self.mem.len() == self.clusters * 8
        &&& self.gen < 64
    }

    /// The cluster a key belongs to. The high-bit multiply uses the whole key,
    /// so it stays well distributed when the low bits are correlated.
    pub open spec fn home(self, key: u64) -> int {
        key * self.clusters / 0x1_0000_0000_0000_0000
    }

    /// The data word of entry `i` of the cluster of `key`.
    pub open spec fn data(self, key: u64, i: int) -> u64 {
        self.mem[(self.home(key) * 4 + i) * 2 + 1]
    }

    /// Entry `i` of the cluster of `key` was written for `key`.
    pub open spec fn is_for(self, key: u64, i: int) -> bool {
        self.mem[(self.home(key) * 4 + i) * 2] ^ self.data(key, i) == key
    }

    /// Entry `i` answers a probe.
    pub open spec fn answers(self, key: u64, i: int) -> bool {
        self.is_for(key, i) && bound_in(self.data(key, i)) != 0
    }

    /// What entry `i` says, at a ply.
    pub open spec fn hit(self, key: u64, i: int, ply: int) -> Hit {
        let d = self.data(key, i);
        Hit {
            mv: Move(mv_in(d) as u16),
            score: unbased(score_in(d), ply) as i32,
            eval: eval_in(d) as i32,
            depth: depth_in(d) as i32,
            bound: bound_in(d) as u8,
        }
    }

    /// What a probe finds: the first entry of the cluster that answers.
    pub open spec fn found(self, key: u64, ply: int) -> Option<Hit> {
        if self.clusters == 0 {
            None
        } else if self.answers(key, 0) {
            Some(self.hit(key, 0, ply))
        } else if self.answers(key, 1) {
            Some(self.hit(key, 1, ply))
        } else if self.answers(key, 2) {
            Some(self.hit(key, 2, ply))
        } else if self.answers(key, 3) {
            Some(self.hit(key, 3, ply))
        } else {
            None
        }
    }

    /// Entry `i` can be taken without weighing up: it is for the same position,
    /// or free.
    pub open spec fn usable(self, key: u64, i: int) -> bool {
        self.is_for(key, i) || bound_in(self.data(key, i)) == 0
    }

    /// How much an entry is worth keeping. Depth is the main currency; entries
    /// from older searches are discounted so a long game does not fossilise the
    /// table.
    pub open spec fn value(self, key: u64, i: int) -> int {
        let d = self.data(key, i);
        depth_in(d) - (self.gen + 64 - gen_in(d)) % 64 * 4
    }

    /// The first of the least valuable entries up to `i`.
    pub open spec fn cheapest(self, key: u64, i: int) -> int
        decreases i,
    {
        if i <= 0 {
            0
        } else {
            let j = self.cheapest(key, i - 1);
            if self.value(key, i) < self.value(key, j) {
                i
            } else {
                j
            }
        }
    }

    /// The entry that a store takes.
    pub open spec fn slot(self, key: u64) -> int {
        if self.usable(key, 0) {
            0
        } else if self.usable(key, 1) {
            1
        } else if self.usable(key, 2) {
            2
        } else if self.usable(key, 3) {
            3
        } else {
            self.cheapest(key, 3)
        }
    }

    /// The data word that a store leaves in the entry it takes.
    pub open spec fn written(
        self,
        key: u64,
        mv: Move,
        score: int,
        eval: int,
        depth: int,
        bound: int,
        ply: int,
    ) -> int {
        let i = self.slot(key);
        let (same, d) = (self.is_for(key, i), self.data(key, i));
        // Keep the old move when the new search has none: a stale hint still
        // orders better than nothing.
        let keep = if mv.0 == 0 && same {
            mv_in(d)
        } else {
            mv.0 as int
        };
        if !same || bound == 3 || depth + 4 > depth_in(d) {
            packed(
                keep,
                rebased(score, ply),
                crate::infer::clamp(eval, -32_000, 32_000),
                crate::infer::clamp(depth, -8, 127),
                self.gen * 4 + bound,
            )
        } else {
            d - mv_in(d) + keep
        }
    }

    /// The table after a store. Nothing is kept without memory.
    #[verifier::opaque]
    pub open spec fn stored(
        self,
        key: u64,
        mv: Move,
        score: int,
        eval: int,
        depth: int,
        bound: int,
        ply: int,
    ) -> Table {
        if self.clusters == 0 {
            self
        } else {
            let d = self.written(key, mv, score, eval, depth, bound, ply) as u64;
            let at = (self.home(key) * 4 + self.slot(key)) * 2;
            Table { mem: self.mem.update(at, key ^ d).update(at + 1, d), ..self }
        }
    }

    /// The number of entries of the current search among the first `n`.
    pub open spec fn fresh(self, n: nat) -> int
        decreases n,
    {
        if n == 0 {
            0
        } else {
            let d = self.mem[(n - 1) * 2 + 1];
            self.fresh((n - 1) as nat) + if bound_in(d) != 0 && gen_in(d) == self.gen {
                1int
            } else {
                0
            }
        }
    }

    /// How full the table is, in permille of its first 1000 clusters.
    pub open spec fn full(self) -> int {
        if self.clusters == 0 {
            0
        } else {
            let n = eval::min(1000, self.clusters as int);
            self.fresh((n * 4) as nat) * 1000 / (n * 4)
        }
    }
}

/// One store.
pub struct Store {
    pub key: u64,
    pub mv: Move,
    pub score: int,
    pub eval: int,
    pub depth: int,
    pub bound: int,
    pub ply: int,
}

impl Table {
    /// The table after the stores `l`, one after the other.
    pub open spec fn after_stores(self, l: Seq<Store>) -> Table
        decreases l.len(),
    {
        if l.len() == 0 {
            self
        } else {
            let x = l.last();
            self.after_stores(l.drop_last()).stored(
                x.key,
                x.mv,
                x.score,
                x.eval,
                x.depth,
                x.bound,
                x.ply,
            )
        }
    }

    /// Stores alone, and nothing else, make `t` of this table.
    #[verifier::opaque]
    pub open spec fn led_to(self, t: Table) -> bool {
        exists|l: Seq<Store>| t == #[trigger] self.after_stores(l)
    }
}

pub broadcast proof fn lemma_led_nowhere(t: Table)
    ensures
        #[trigger] t.led_to(t),
{
    reveal(Table::led_to);
    assert(t.after_stores(Seq::empty()) == t);
}

pub broadcast proof fn lemma_led_once(
    t: Table,
    key: u64,
    mv: Move,
    score: int,
    eval: int,
    depth: int,
    bound: int,
    ply: int,
)
    ensures
        t.led_to(#[trigger] t.stored(key, mv, score, eval, depth, bound, ply)),
{
    reveal(Table::led_to);
    let x = Store { key, mv, score, eval, depth, bound, ply };
    let l = Seq::<Store>::empty().push(x);
    assert(l.drop_last() =~= Seq::empty());
    assert(l.last() == x);
    assert(t.after_stores(Seq::empty()) == t);
    assert(t.after_stores(l) == t.stored(key, mv, score, eval, depth, bound, ply));
}

proof fn lemma_more_stores(t: Table, a: Seq<Store>, b: Seq<Store>)
    ensures
        t.after_stores(a).after_stores(b) == t.after_stores(a + b),
    decreases b.len(),
{
    if b.len() == 0 {
        assert(a + b =~= a);
    } else {
        assert((a + b).drop_last() =~= a + b.drop_last());
        lemma_more_stores(t, a, b.drop_last());
    }
}

pub broadcast proof fn lemma_led_on(t: Table, u: Table, v: Table)
    requires
        #[trigger] t.led_to(u),
        #[trigger] u.led_to(v),
    ensures
        t.led_to(v),
{
    reveal(Table::led_to);
    let a = choose|l: Seq<Store>| u == #[trigger] t.after_stores(l);
    let b = choose|l: Seq<Store>| v == #[trigger] u.after_stores(l);
    lemma_more_stores(t, a, b);
}

pub broadcast group group_led {
    lemma_led_nowhere,
    lemma_led_once,
    lemma_led_on,
}

proof fn lemma_stores_keep(t: Table, l: Seq<Store>)
    ensures
        t.after_stores(l).clusters == t.clusters,
        t.after_stores(l).gen == t.gen,
    decreases l.len(),
{
    if l.len() > 0 {
        lemma_stores_keep(t, l.drop_last());
        reveal(Table::stored);
    }
}

/// Stores neither resize a table nor change its generation.
pub proof fn law_stores_neither_resize_nor_age(t: Table, u: Table)
    requires
        t.led_to(u),
    ensures
        u.clusters == t.clusters,
        u.gen == t.gen,
{
    reveal(Table::led_to);
    lemma_stores_keep(t, choose|l: Seq<Store>| u == #[trigger] t.after_stores(l));
}

impl Tt {
    pub open spec fn view(&self) -> Table {
        Table { mem: self.mem@, clusters: self.clusters, gen: self.gen }
    }

    pub open spec fn wf(self) -> bool {
        self@.wf()
    }
}

pub proof fn lemma_home(t: Table, key: u64)
    requires
        t.wf(),
        t.clusters > 0,
    ensures
        0 <= t.home(key) < t.clusters,
        key * t.clusters <= u128::MAX,
        forall|i: int|
            0 <= i < 4 ==> 0 <= #[trigger] ((t.home(key) * 4 + i) * 2) && (t.home(key) * 4 + i) * 2
                + 1 < t.mem.len(),
{
    let (k, c) = (key as int, t.clusters as int);
    assert(0 <= k * c <= 0xFFFF_FFFF_FFFF_FFFF * c) by (nonlinear_arith)
        requires
            0 <= k <= 0xFFFF_FFFF_FFFF_FFFF,
            0 < c,
    ;
}

/// A power of two, doubled.
proof fn lemma_pow2(p: int)
    requires
        is_pow2(p),
    ensures
        is_pow2(2 * p),
        p >= 1,
{
}

impl Tt {
    /// A table without memory: nothing is kept and nothing is found.
    pub fn new() -> (t: Tt)
        ensures
            t.wf(),
            t.clusters == 0,
            t.gen == 0,
    {
        Tt { mem: Vec::new(), clusters: 0, gen: 0 }
    }

    /// Take a new, empty table of about `mb` megabytes, rounded down to a
    /// power-of-two number of clusters.
    pub fn resize(&mut self, mb: usize)
        requires
            mb * 1_048_576 <= isize::MAX,
        ensures
            final(self).wf(),
            final(self).gen == 0,
            is_floor2(
                final(self).clusters as int,
                16_384 * if mb == 0 {
                    1
                } else {
                    mb as int
                },
            ),
            forall|i: int| 0 <= i < final(self).mem@.len() ==> final(self).mem@[i] == 0,
    {
        let most: usize = 16_384 * if mb == 0 {
            1
        } else {
            mb
        };
        let mut clusters: usize = 1;
        while clusters <= most / 2
            invariant
                1 <= clusters <= most,
                is_pow2(clusters as int),
            decreases most - clusters,
        {
            proof {
                lemma_pow2(clusters as int);
            }
            clusters = clusters * 2;
        }
        self.mem = vec![0u64; clusters * 8];
        self.clusters = clusters as u64;
        self.gen = 0;
    }

    /// Forget everything, keeping the size.
    pub fn clear(&mut self)
        requires
            old(self).wf(),
        ensures
            final(self).wf(),
            final(self).clusters == old(self).clusters,
            final(self).clusters != 0 ==> final(self).gen == 0,
            final(self).clusters == 0 ==> final(self).gen == old(self).gen,
            forall|i: int| 0 <= i < final(self).mem@.len() ==> final(self).mem@[i] == 0,
    {
        if self.clusters == 0 {
            return ;
        }
        let n = self.mem.len();
        self.mem = vec![0u64; n];
        self.gen = 0;
    }

    pub fn new_search(&mut self)
        requires
            old(self).wf(),
        ensures
            final(self).wf(),
            final(self).mem == old(self).mem,
            final(self).clusters == old(self).clusters,
            final(self).gen == (old(self).gen + 1) % 64,
    {
        self.gen = (self.gen + 1) % 64;
    }

    /// Where the cluster of a key starts in memory.
    #[inline(always)]
    fn cluster(&self, key: u64) -> (r: usize)
        requires
            self.wf(),
            self.clusters > 0,
        ensures
            r == self@.home(key) * 8,
            r + 8 <= self.mem@.len(),
    {
        proof {
            lemma_home(self@, key);
        }
        let idx = (key as u128 * self.clusters as u128) / 0x1_0000_0000_0000_0000u128;
        let n = self.mem.len();
        (idx as usize) * 8
    }

    pub fn probe(&self, key: u64, ply: usize) -> (r: Option<Hit>)
        requires
            self.wf(),
            ply <= i32::MAX,
        ensures
            r == self@.found(key, ply as int),
            r matches Some(h) ==> {
                &&& 1 <= h.bound <= 3
                &&& ply <= 1000 ==> -32_000 <= h.score <= 32_000
                &&& -32_768 <= h.eval <= 32_767
                &&& -128 <= h.depth <= 127
            },
    {
        if self.clusters == 0 {
            return None;
        }
        let c = self.cluster(key);
        let mut i: usize = 0;
        while i < CLUSTER
            invariant
                self.wf(),
                self.clusters > 0,
                ply <= i32::MAX,
                c == self@.home(key) * 8,
                c + 8 <= self.mem@.len(),
                i <= 4,
                forall|j: int| 0 <= j < i ==> !#[trigger] self@.answers(key, j),
            decreases 4 - i,
        {
            let k = self.mem[c + 2 * i];
            let data = self.mem[c + 2 * i + 1];
            assert(data == self@.data(key, i as int));
            if k ^ data == key && d_bound(data) != BOUND_NONE {
                assert(self@.answers(key, i as int));
                return Some(
                    Hit {
                        mv: Move(d_mv(data)),
                        score: from_tt(d_score(data), ply),
                        eval: d_eval(data),
                        depth: d_depth(data),
                        bound: d_bound(data),
                    },
                );
            }
            i = i + 1;
        }
        None
    }

    /// The entry that a store takes.
    fn choose_slot(&self, key: u64, c: usize) -> (r: usize)
        requires
            self.wf(),
            self.clusters > 0,
            c == self@.home(key) * 8,
            c + 8 <= self.mem@.len(),
        ensures
            r == self@.slot(key),
            r < 4,
    {
        let mut best: usize = 0;
        let mut best_val: i32 = i32::MAX;
        let mut i: usize = 0;
        while i < CLUSTER
            invariant
                self.wf(),
                self.clusters > 0,
                c == self@.home(key) * 8,
                c + 8 <= self.mem@.len(),
                i <= 4,
                forall|j: int| 0 <= j < i ==> !#[trigger] self@.usable(key, j),
                i == 0 ==> best == 0 && best_val == i32::MAX,
                i > 0 ==> best == self@.cheapest(key, i - 1) && best_val == self@.value(
                    key,
                    best as int,
                ),
                best < 4,
            decreases 4 - i,
        {
            let data = self.mem[c + 2 * i + 1];
            assert(data == self@.data(key, i as int));
            if self.mem[c + 2 * i] ^ data == key || d_bound(data) == BOUND_NONE {
                // Same position, or a free slot: nothing to weigh up.
                assert(self@.usable(key, i as int));
                return i;
            }
            assert(!self@.usable(key, i as int));
            let age = (self.gen as i32 + 64 - d_gen(data) as i32) % 64;
            let val = d_depth(data) - age * 4;
            assert(val == self@.value(key, i as int));
            if val < best_val {
                best_val = val;
                best = i;
            }
            i = i + 1;
        }
        assert(!self@.usable(key, 0) && !self@.usable(key, 1) && !self@.usable(key, 2)
            && !self@.usable(key, 3));
        best
    }

    /// Remember a result. Nothing is kept without memory.
    pub fn store(
        &mut self,
        key: u64,
        mv: Move,
        score: i32,
        eval: i32,
        depth: i32,
        bound: u8,
        ply: usize,
    )
        requires
            old(self).wf(),
            bound < 4,
            ply <= i32::MAX,
        ensures
            final(self).wf(),
            final(self).clusters == old(self).clusters,
            final(self).gen == old(self).gen,
            final(self)@ == old(self)@.stored(
                key,
                mv,
                score as int,
                eval as int,
                depth as int,
                bound as int,
                ply as int,
            ),
            old(self).clusters != 0 ==> 0 <= old(self)@.written(
                key,
                mv,
                score as int,
                eval as int,
                depth as int,
                bound as int,
                ply as int,
            ) <= u64::MAX,
    {
        proof {
            reveal(Table::stored);
        }
        if self.clusters == 0 {
            return ;
        }
        let c = self.cluster(key);
        let slot = self.choose_slot(key, c);
        let at = c + 2 * slot;
        let old_data = self.mem[at + 1];
        let same = self.mem[at] ^ old_data == key;
        proof {
            assert(old_data == self@.data(key, slot as int));
            assert(same == self@.is_for(key, slot as int));
        }
        let keep = if mv.is_null() && same {
            d_mv(old_data)
        } else {
            mv.0
        };
        let data: u64 = if !same || bound == BOUND_EXACT || depth > d_depth(old_data) - 4 {
            let e = if eval < -32_000 {
                -32_000
            } else if eval > 32_000 {
                32_000
            } else {
                eval
            };
            let d = if depth < -8 {
                -8
            } else if depth > 127 {
                127
            } else {
                depth
            };
            pack(keep, to_tt(score, ply), e, d, self.gen, bound)
        } else {
            // Only the move can have improved.
            proof {
                reveal(mv_in);
            }
            old_data - old_data % 65536 + keep as u64
        };
        self.mem.set(at, key ^ data);
        self.mem.set(at + 1, data);
    }

    /// Rough fill estimate over the first 1000 clusters, in permille.
    pub fn hashfull(&self) -> (r: usize)
        requires
            self.wf(),
        ensures
            r == self@.full(),
    {
        if self.clusters == 0 {
            return 0;
        }
        let n: usize = if self.clusters < 1000 {
            self.clusters as usize
        } else {
            1000
        };
        let mut used: usize = 0;
        let mut i: usize = 0;
        while i < n * CLUSTER
            invariant
                self.wf(),
                1 <= n <= 1000,
                n <= self.clusters,
                i <= n * 4,
                used <= i,
                used == self@.fresh(i as nat),
            decreases n * 4 - i,
        {
            let data = self.mem[i * 2 + 1];
            if d_bound(data) != BOUND_NONE && d_gen(data) == self.gen {
                used = used + 1;
            }
            i = i + 1;
        }
        used * 1000 / (n * CLUSTER)
    }
}

// ---------------------------------------------------------------------------
// The laws
// ---------------------------------------------------------------------------

/// A count of entries is never more than there are.
proof fn lemma_fresh(t: Table, n: nat)
    ensures
        0 <= t.fresh(n) <= n,
    decreases n,
{
    if n > 0 {
        lemma_fresh(t, (n - 1) as nat);
    }
}

/// How full a table is never exceeds a thousand permille.
pub proof fn law_fullness_is_in_permille(t: Table)
    ensures
        0 <= t.full() <= 1000,
{
    if t.clusters != 0 {
        let n = eval::min(1000, t.clusters as int) * 4;
        let x = t.fresh(n as nat);
        lemma_fresh(t, n as nat);
        assert(0 <= x * 1000 / n <= 1000) by (nonlinear_arith)
            requires
                0 <= x <= n,
                n > 0,
        ;
    }
}

/// An empty table finds nothing.
pub proof fn law_empty_table_finds_nothing(t: Table, key: u64, ply: int)
    requires
        t.wf(),
        forall|i: int| 0 <= i < t.mem.len() ==> t.mem[i] == 0,
    ensures
        t.found(key, ply) is None,
{
    if t.clusters != 0 {
        lemma_home(t, key);
        let b = t.home(key) * 4;
        assert(0 <= (b + 0) * 2 && 0 <= (b + 1) * 2 && 0 <= (b + 2) * 2 && 0 <= (b + 3) * 2);
        assert(t.data(key, 0) == 0 && t.data(key, 1) == 0 && t.data(key, 2) == 0 && t.data(key, 3)
            == 0);
        reveal(bound_in);
    }
}

/// What is stored is found again, at the same ply: the move (or the old one,
/// where none was given), the score as far as sixteen bits hold it with its
/// mate distance, and the clamped evaluation and depth. Left out are the stores
/// that keep a deeper entry of the same position.
pub proof fn law_store_then_probe(
    t: Table,
    key: u64,
    mv: Move,
    score: int,
    eval: int,
    depth: int,
    bound: int,
    ply: int,
)
    requires
        t.wf(),
        t.clusters != 0,
        -32000 <= score <= 32000,
        0 <= ply <= 767,
        0 < bound < 4,
        !t.is_for(key, t.slot(key)) || bound == 3 || depth + 4 > depth_in(
            t.data(key, t.slot(key)),
        ),
    ensures
        t.stored(key, mv, score, eval, depth, bound, ply).found(key, ply) == Some(
            Hit {
                mv: if mv.0 == 0 && t.is_for(key, t.slot(key)) {
                    Move(mv_in(t.data(key, t.slot(key))) as u16)
                } else {
                    mv
                },
                score: score as i32,
                eval: crate::infer::clamp(eval, -32_000, 32_000) as i32,
                depth: crate::infer::clamp(depth, -8, 127) as i32,
                bound: bound as u8,
            },
        ),
{
    reveal(Table::stored);
    let u = t.stored(key, mv, score, eval, depth, bound, ply);
    lemma_home(t, key);
    let i = t.slot(key);
    assert(0 <= i < 4) by {
        reveal_with_fuel(Table::cheapest, 5);
    }
    let b = t.home(key) * 4;
    let d0 = t.data(key, i);
    let keep = if mv.0 == 0 && t.is_for(key, i) {
        mv_in(d0)
    } else {
        mv.0 as int
    };
    assert(0 <= mv_in(d0) < 65536) by {
        reveal(mv_in);
    }
    law_pack_round_trip(
        keep,
        rebased(score, ply),
        crate::infer::clamp(eval, -32_000, 32_000),
        crate::infer::clamp(depth, -8, 127),
        t.gen as int,
        bound,
    );
    law_mate_scores_round_trip(score, ply);
    let d = t.written(key, mv, score, eval, depth, bound, ply) as u64;
    law_torn_entries_miss(key, d, d);
    assert(0 <= (b + 0) * 2 && 0 <= (b + 1) * 2 && 0 <= (b + 2) * 2 && 0 <= (b + 3) * 2);
    assert(u.data(key, i) == d);
    assert(u.answers(key, i));
    assert forall|j: int| 0 <= j < 4 && j != i implies u.data(key, j) == #[trigger] t.data(key, j)
        && u.is_for(key, j) == t.is_for(key, j) by {}
    assert(0 < i ==> !t.usable(key, 0));
    assert(1 < i ==> !t.usable(key, 1));
    assert(2 < i ==> !t.usable(key, 2));
    assert(u.data(key, 0) == t.data(key, 0) || i == 0);
    assert(u.data(key, 1) == t.data(key, 1) || i == 1);
    assert(u.data(key, 2) == t.data(key, 2) || i == 2);
    assert(0 < i ==> !u.answers(key, 0));
    assert(1 < i ==> !u.answers(key, 1));
    assert(2 < i ==> !u.answers(key, 2));
    assert(u.found(key, ply) == Some(u.hit(key, i, ply)));
    let h = u.hit(key, i, ply);
    assert(h.mv.0 == keep);
    assert(h.score == score);
    assert(h.eval == crate::infer::clamp(eval, -32_000, 32_000));
    assert(h.depth == crate::infer::clamp(depth, -8, 127));
    assert(h.bound == bound);
}

} // verus!
