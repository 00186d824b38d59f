//! Running the evaluation network: loading, inference and the cache of finished
//! evaluations.

use vstd::prelude::*;
use vstd::wrapping::i16_specs;
use vstd::wrapping::i32_specs;
use crate::bb::popcount;
use crate::bits;
use crate::eval;
use crate::geom;
use crate::net;
use crate::net::{bucket_of, features_both, BUCKETS, H, IN, MAGIC, QA, QB, SCALE};
use crate::pos::Position;
use crate::tables::Tables;

verus! {

/// Rows of the feature transformer, all neurons of a row together.
pub const FT: usize = 59_776;

/// Output weights of all buckets.
pub const OUT: usize = 1_024;

/// Slots of the cache.
pub const CACHE: usize = 65_536;

/// The size of a network file.
pub const NEED: usize = 60_976;

/// The network, and a direct-mapped cache of its answers.
///
/// The network is a pure function of the position, and a search asks about the
/// same position many times over. One `u64` per slot holds forty bits of the
/// key, eight bits of generation and sixteen bits of score, from the top. The
/// slot is the low bits of the key, so a slot only answers for a position that
/// agrees on both. The generation is what makes the table cheap to empty:
/// bumping a counter invalidates every entry at once. An erased slot is all
/// zero, and no generation is, so it answers for nothing.
pub struct Net {
    pub ft_w: Vec<i8>,
    pub ft_b: Vec<i16>,
    pub out_w: Vec<i8>,
    pub out_b: Vec<i32>,
    pub loaded: bool,
    pub cache: Vec<u64>,
    pub gen: u8,
}

/// What a network holds.
#[verifier::ext_equal]
pub struct Brain {
    pub ft_w: Seq<i8>,
    pub ft_b: Seq<i16>,
    pub out_w: Seq<i8>,
    pub out_b: Seq<i32>,
    pub loaded: bool,
    pub cache: Seq<u64>,
    pub gen: u8,
}

impl Net {
    pub open spec fn view(&self) -> Brain {
        Brain {
            ft_w: self.ft_w@,
            ft_b: self.ft_b@,
            out_w: self.out_w@,
            out_b: self.out_b@,
            loaded: self.loaded,
            cache: self.cache@,
            gen: self.gen,
        }
    }

    pub open spec fn wf(self) -> bool {
        self@.wf()
    }
}

// ---------------------------------------------------------------------------
// Reading a network file
// ---------------------------------------------------------------------------

pub open spec fn signed8(b: u8) -> int {
    if b < 128 {
        b as int
    } else {
        b - 256
    }
}

/// Two bytes, little-endian, as a signed number.
pub open spec fn signed16(s: Seq<u8>, i: int) -> int {
    let v = s[i] + s[i + 1] * 256;
    if v < 32768 {
        v
    } else {
        v - 65536
    }
}

/// Four bytes, little-endian.
pub open spec fn word32(s: Seq<u8>, i: int) -> int {
    s[i] + s[i + 1] * 256 + s[i + 2] * 65536 + s[i + 3] * 16777216
}

pub open spec fn signed32(s: Seq<u8>, i: int) -> int {
    let v = word32(s, i);
    if v < 2147483648 {
        v
    } else {
        v - 4294967296
    }
}

/// A file that this build can load: long enough, and with the header it
/// expects.
pub open spec fn loadable(s: Seq<u8>) -> bool {
    &&& s.len() >= 60_976
    &&& word32(s, 0) == 0x334C_4253
    &&& word32(s, 4) == 934
    &&& word32(s, 8) == 64
    &&& word32(s, 12) == 8
}

/// The weights are those of the file.
pub open spec fn weights_of(s: Seq<u8>, n: Brain) -> bool {
    &&& forall|i: int| 0 <= i < 59_776 ==> #[trigger] n.ft_w[i] == signed8(s[16 + i])
    &&& forall|i: int| 0 <= i < 64 ==> #[trigger] n.ft_b[i] == signed16(s, 59_792 + 2 * i)
    &&& forall|i: int| 0 <= i < 1_024 ==> #[trigger] n.out_w[i] == signed8(s[59_920 + i])
    &&& forall|i: int| 0 <= i < 8 ==> #[trigger] n.out_b[i] == signed32(s, 60_944 + 4 * i)
}

// ---------------------------------------------------------------------------
// Inference
// ---------------------------------------------------------------------------

/// A sum as sixteen bits keep it.
pub open spec fn wrap16(x: int) -> int {
    (x + 32768) % 65536 - 32768
}

/// A sum as thirty-two bits keep it.
pub open spec fn wrap32(x: int) -> int {
    (x + 2147483648) % 4294967296 - 2147483648
}

pub open spec fn clamp(x: int, lo: int, hi: int) -> int {
    if x < lo {
        lo
    } else if x > hi {
        hi
    } else {
        x
    }
}

impl Brain {
    /// Sizes are right, cached scores are in range, no cached entry is of a later
    /// generation, and the generation is not that of an erased slot.
    pub open spec fn wf(self) -> bool {
        &&& self.ft_w.len() == 59_776
        &&& self.ft_b.len() == 64
        &&& self.out_w.len() == 1_024
        &&& self.out_b.len() == 8
        &&& self.cache.len() == 65_536
        &&& self.gen > 0
        &&& forall|i: int|
            0 <= i < 65_536 ==> {
                &&& -20_000 <= score_in(#[trigger] self.cache[i]) <= 20_000
                &&& self.cache[i] / 65536 % 256 <= self.gen
            }
    }

    /// The weights are those of `o`.
    pub open spec fn same_weights(self, o: Brain) -> bool {
        &&& self.ft_w == o.ft_w
        &&& self.ft_b == o.ft_b
        &&& self.out_w == o.out_w
        &&& self.out_b == o.out_b
        &&& self.loaded == o.loaded
    }

    /// The weights that `l[..n]` add to neuron `j`.
    pub open spec fn row_sum(self, l: Seq<int>, j: int, n: nat) -> int
        decreases n,
    {
        if n == 0 {
            0
        } else {
            self.row_sum(l, j, (n - 1) as nat) + self.ft_w[l[n - 1] * 64 + j]
        }
    }

    /// Neuron `j` after the active rows are added, before clipping.
    pub open spec fn neuron(self, l: Seq<int>, j: int) -> int {
        wrap16(self.ft_b[j] + self.row_sum(l, j, l.len()))
    }

    /// The first `n` clipped neurons times the output weights from `w` on.
    pub open spec fn dot(self, l: Seq<int>, w: int, n: nat) -> int
        decreases n,
    {
        if n == 0 {
            0
        } else {
            self.dot(l, w, (n - 1) as nat) + clamp(self.neuron(l, n - 1), 0, 127) * self.out_w[w + n
                - 1]
        }
    }

    /// The network's answer for a position: the side to move's rows against the
    /// first half of a bucket's output weights, the opponent's against the
    /// second.
    pub open spec fn answer(self, p: Position) -> int {
        let us = p.stm as int;
        let b = net::bucket(bits::card(p.occ_bb()) as int);
        let out = wrap32(
            self.dot(net::rows(p, us), b * 128, 64) + self.dot(net::rows(p, 1 - us), b * 128 + 64, 64)
                + self.out_b[b],
        );
        clamp(eval::quot(wrap32(out * 400), 8128), -20_000, 20_000)
    }

    /// The cache slot of a key holds an answer for it.
    pub open spec fn knows(self, key: u64) -> bool {
        self.cache[(key % 65536) as int] / 65536 == key / 16777216 * 256 + self.gen
    }

    /// The cached answer.
    pub open spec fn recall(self, key: u64) -> int {
        score_in(self.cache[(key % 65536) as int])
    }

    /// No answer is at hand.
    pub open spec fn forgetful(self) -> bool {
        forall|key: u64| !#[trigger] self.knows(key)
    }

    /// What the network says of a position: a cached answer is given as it is.
    pub open spec fn reply(self, p: Position) -> int {
        if self.knows(p.key) {
            self.recall(p.key)
        } else {
            self.answer(p)
        }
    }

    /// The network after it was asked about a position: a new answer is cached.
    pub open spec fn told(self, p: Position) -> Brain {
        if self.knows(p.key) {
            self
        } else {
            Brain {
                cache: self.cache.update(
                    (p.key % 65536) as int,
                    packed(p.key, self.gen, self.answer(p)) as u64,
                ),
                ..self
            }
        }
    }
}

/// The score a cache entry holds.
pub open spec fn score_in(e: u64) -> int {
    if e % 65536 < 32768 {
        (e % 65536) as int
    } else {
        e % 65536 - 65536
    }
}

/// A cache entry.
pub open spec fn packed(key: u64, gen: u8, score: int) -> int {
    key / 16777216 * 16777216 + gen * 65536 + score % 65536
}

pub proof fn lemma_packed(key: u64, gen: u8, score: int)
    requires
        -20_000 <= score <= 20_000,
    ensures
        0 <= packed(key, gen, score) <= u64::MAX,
        packed(key, gen, score) / 65536 == key / 16777216 * 256 + gen,
        packed(key, gen, score) / 65536 % 256 == gen,
        score_in(packed(key, gen, score) as u64) == score,
{
}

#[inline(always)]
fn pack(key: u64, gen: u8, score: i32) -> (r: u64)
    requires
        -20_000 <= score <= 20_000,
    ensures
        r == packed(key, gen, score as int),
{
    let low: u64 = if score < 0 {
        (score + 65536) as u64
    } else {
        score as u64
    };
    proof {
        lemma_packed(key, gen, score as int);
    }
    key / 16777216 * 16777216 + (gen as u64) * 65536 + low
}

proof fn lemma_wrap16(x: int, y: i16)
    ensures
        -32768 <= wrap16(x) <= 32767,
        i16_specs::wrapping_add(wrap16(x) as i16, y) == wrap16(x + y),
{
}

proof fn lemma_wrap32(x: i32, y: i32)
    ensures
        i32_specs::wrapping_add(x, y) == wrap32(x + y),
        i32_specs::wrapping_mul(x, y) == wrap32(x * y),
        -2147483648 <= wrap32(x + y) <= 2147483647,
{
    let p = x * y;
    assert(i32_specs::wrapping_mul(x, y) == i32_specs::signed_crop(p));
}

impl Net {
    /// An empty network: nothing loaded, nothing cached.
    pub fn new() -> (n: Net)
        ensures
            n.wf(),
            !n.loaded,
            n@.forgetful(),
    {
        let n = Net {
            ft_w: vec![0i8; FT],
            ft_b: vec![0i16; H],
            out_w: vec![0i8; OUT],
            out_b: vec![0i32; BUCKETS],
            loaded: false,
            cache: vec![0u64; CACHE],
            gen: 1,
        };
        proof {
            assert forall|key: u64| !#[trigger] n@.knows(key) by {
                assert(n.cache@[(key % 65536) as int] == 0);
                assert((key / 16777216 * 256 + n.gen) % 256 == n.gen);
            }
        }
        n
    }
}

#[inline(always)]
pub fn is_loaded(n: &Net) -> (r: bool)
    ensures
        r == n.loaded,
{
    n.loaded
}

/// Forget every cached score. Not needed for correctness, but a benchmark wants
/// each position measured from a cold start.
pub fn clear_cache(n: &mut Net)
    requires
        old(n).wf(),
    ensures
        final(n).wf(),
        final(n)@ == (Brain { cache: final(n).cache@, gen: final(n).gen, ..old(n)@ }),
        final(n).gen == if old(n).gen == 255 {
            1int
        } else {
            old(n).gen + 1
        },
        old(n).gen < 255 ==> final(n).cache@ == old(n).cache@,
        old(n).gen == 255 ==> forall|i: int|
            0 <= i < 65_536 ==> #[trigger] final(n).cache@[i] == 0,
        final(n)@.forgetful(),
{
    // Eight bits of generation come round again after 255 clears, and an entry
    // that old would start answering again. That only happens once every 255
    // clears, so pay for the real erase then.
    if n.gen == 255 {
        n.gen = 1;
        n.cache = vec![0u64; CACHE];
    } else {
        n.gen = n.gen + 1;
    }
    proof {
        assert forall|key: u64| !#[trigger] n@.knows(key) by {
            let e = n.cache@[(key % 65536) as int];
            if old(n).gen == 255 {
                assert(e == 0);
            } else {
                assert(e == old(n).cache@[(key % 65536) as int]);
            }
            assert((key / 16777216 * 256 + n.gen) % 256 == n.gen);
        }
    }
}

fn read32(s: &[u8], i: usize) -> (r: u32)
    requires
        i + 3 < s@.len(),
    ensures
        r == word32(s@, i as int),
{
    s[i] as u32 + s[i + 1] as u32 * 256 + s[i + 2] as u32 * 65536 + s[i + 3] as u32 * 16777216
}

fn read_signed8(s: &[u8], from: usize, n: usize) -> (r: Vec<i8>)
    requires
        from + n <= s@.len(),
    ensures
        r@.len() == n,
        forall|i: int| 0 <= i < n ==> #[trigger] r@[i] == signed8(s@[from + i]),
{
    let mut r: Vec<i8> = Vec::new();
    let mut i: usize = 0;
    let len = s.len();
    while i < n
        invariant
            i <= n,
            from + n <= len,
            len == s@.len(),
            r@.len() == i,
            forall|j: int| 0 <= j < i ==> #[trigger] r@[j] == signed8(s@[from + j]),
        decreases n - i,
    {
        let b = s[from + i];
        r.push(
            if b < 128 {
                b as i8
            } else {
                (b as i16 - 256) as i8
            },
        );
        i = i + 1;
    }
    r
}

fn read_biases(s: &[u8]) -> (r: Vec<i16>)
    requires
        s@.len() >= 60_976,
    ensures
        r@.len() == 64,
        forall|i: int| 0 <= i < 64 ==> #[trigger] r@[i] == signed16(s@, 59_792 + 2 * i),
{
    let mut r: Vec<i16> = Vec::new();
    let mut i: usize = 0;
    while i < H
        invariant
            i <= 64,
            s@.len() >= 60_976,
            r@.len() == i,
            forall|j: int| 0 <= j < i ==> #[trigger] r@[j] == signed16(s@, 59_792 + 2 * j),
        decreases 64 - i,
    {
        let o = 59_792 + 2 * i;
        let v = s[o] as i32 + s[o + 1] as i32 * 256;
        r.push(
            if v < 32768 {
                v as i16
            } else {
                (v - 65536) as i16
            },
        );
        i = i + 1;
    }
    r
}

fn read_outputs(s: &[u8]) -> (r: Vec<i32>)
    requires
        s@.len() >= 60_976,
    ensures
        r@.len() == 8,
        forall|i: int| 0 <= i < 8 ==> #[trigger] r@[i] == signed32(s@, 60_944 + 4 * i),
{
    let mut r: Vec<i32> = Vec::new();
    let mut i: usize = 0;
    while i < BUCKETS
        invariant
            i <= 8,
            s@.len() >= 60_976,
            r@.len() == i,
            forall|j: int| 0 <= j < i ==> #[trigger] r@[j] == signed32(s@, 60_944 + 4 * j),
        decreases 8 - i,
    {
        let v = read32(s, 60_944 + 4 * i) as i64;
        r.push(
            if v < 2147483648 {
                v as i32
            } else {
                (v - 4294967296) as i32
            },
        );
        i = i + 1;
    }
    r
}

/// Load a network. Expected layout, little-endian, tightly packed: magic,
/// inputs, hidden and buckets as four words, then the feature-transformer
/// weights and biases and the output weights and biases.
///
/// A header mismatch is not an error: it just leaves the network as it was, and
/// the engine falls back to the hand-crafted evaluation.
pub fn init(n: &mut Net, blob: &[u8])
    requires
        old(n).wf(),
    ensures
        final(n).wf(),
        !loadable(blob@) ==> *final(n) == *old(n),
        loadable(blob@) ==> final(n).loaded && weights_of(blob@, final(n)@),
        final(n).cache@ == old(n).cache@,
        final(n).gen == old(n).gen,
{
    if blob.len() < NEED {
        return ;
    }
    if read32(blob, 0) != MAGIC || read32(blob, 4) != IN as u32 || read32(blob, 8) != H as u32
        || read32(blob, 12) != BUCKETS as u32 {
        return ;
    }
    n.ft_w = read_signed8(blob, 16, FT);
    n.ft_b = read_biases(blob);
    n.out_w = read_signed8(blob, 59_920, OUT);
    n.out_b = read_outputs(blob);
    n.loaded = true;
}

/// One list of rows as mathematical integers.
spec fn as_rows(f: Seq<u16>, n: int) -> Seq<int> {
    Seq::new(n as nat, |i: int| f[i] as int)
}

/// Add the active rows to the biases.
fn accumulate(n: &Net, f: &[u16; 96], count: usize) -> (acc: [i16; 64])
    requires
        n.wf(),
        count <= 96,
        forall|i: int| 0 <= i < count ==> #[trigger] f@[i] < 934,
    ensures
        forall|j: int|
            0 <= j < 64 ==> #[trigger] acc@[j] == n@.neuron(as_rows(f@, count as int), j),
{
    let ghost l = as_rows(f@, count as int);
    let mut acc: [i16; 64] = [0;64];
    let mut j: usize = 0;
    while j < H
        invariant
            j <= 64,
            n.wf(),
            forall|x: int| 0 <= x < j ==> #[trigger] acc@[x] == n.ft_b@[x],
        decreases 64 - j,
    {
        acc[j] = n.ft_b[j];
        j = j + 1;
    }
    let mut i: usize = 0;
    proof {
        assert forall|x: int| 0 <= x < 64 implies #[trigger] acc@[x] == wrap16(
            n.ft_b@[x] + n@.row_sum(l, x, 0),
        ) by {}
    }
    while i < count
        invariant
            i <= count <= 96,
            n.wf(),
            l == as_rows(f@, count as int),
            forall|x: int| 0 <= x < count ==> #[trigger] f@[x] < 934,
            forall|x: int|
                0 <= x < 64 ==> #[trigger] acc@[x] == wrap16(
                    n.ft_b@[x] + n@.row_sum(l, x, i as nat),
                ),
        decreases count - i,
    {
        let base = f[i] as usize * H;
        let mut j: usize = 0;
        while j < H
            invariant
                j <= 64,
                i < count <= 96,
                n.wf(),
                l == as_rows(f@, count as int),
                f@[i as int] < 934,
                base == f@[i as int] * 64,
                forall|x: int|
                    j <= x < 64 ==> #[trigger] acc@[x] == wrap16(
                        n.ft_b@[x] + n@.row_sum(l, x, i as nat),
                    ),
                forall|x: int|
                    0 <= x < j ==> #[trigger] acc@[x] == wrap16(
                        n.ft_b@[x] + n@.row_sum(l, x, (i + 1) as nat),
                    ),
            decreases 64 - j,
        {
            let w = n.ft_w[base + j] as i16;
            proof {
                lemma_wrap16(n.ft_b@[j as int] + n@.row_sum(l, j as int, i as nat), w);
                assert(acc@[j as int] == wrap16(
                    n.ft_b@[j as int] + n@.row_sum(l, j as int, i as nat),
                ));
            }
            acc[j] = acc[j].wrapping_add(w);
            j = j + 1;
        }
        i = i + 1;
    }
    acc
}

/// Clipped activation followed by the output dot product.
#[inline(always)]
fn propagate(n: &Net, acc: &[i16; 64], w: usize, Ghost(l): Ghost<Seq<int>>) -> (r: i32)
    requires
        n.wf(),
        w <= 960,
        forall|j: int| 0 <= j < 64 ==> #[trigger] acc@[j] == n@.neuron(l, j),
    ensures
        r == n@.dot(l, w as int, 64),
        -1_040_384 <= r <= 1_040_384,
{
    let mut total: i32 = 0;
    let mut i: usize = 0;
    while i < H
        invariant
            i <= 64,
            n.wf(),
            w <= 960,
            forall|j: int| 0 <= j < 64 ==> #[trigger] acc@[j] == n@.neuron(l, j),
            total == n@.dot(l, w as int, i as nat),
            -16_256 * i <= total <= 16_256 * i,
        decreases 64 - i,
    {
        let a = acc[i];
        let c: i32 = if a < 0 {
            0
        } else if a as i32 > QA {
            QA
        } else {
            a as i32
        };
        let x = n.out_w[w + i] as i32;
        assert(-16_256 <= c * x <= 16_256) by (nonlinear_arith)
            requires
                0 <= c <= 127,
                -128 <= x <= 127,
        ;
        total = total + c * x;
        i = i + 1;
    }
    total
}

/// Evaluation in centipawns, from the side to move's point of view.
///
/// An erased slot is all zero, which is a real entry for the one position in a
/// trillion whose key has forty zero bits on top and whose score is zero. No
/// validity bit is worth the space.
pub fn evaluate(n: &mut Net, t: &Tables, pos: &Position) -> (r: i32)
    requires
        old(n).wf(),
        pos.board_ok(),
        pos.stm < 2,
        geom::is_sq(pos.king(0)),
        geom::is_sq(pos.king(1)),
    ensures
        final(n).wf(),
        r == old(n)@.reply(*pos),
        final(n)@ == old(n)@.told(*pos),
        final(n)@.knows(pos.key),
        final(n)@.recall(pos.key) == r,
        -20_000 <= r <= 20_000,
{
    let slot = (pos.key % 65536) as usize;
    let hit = n.cache[slot];
    let tag = pos.key / 16777216 * 256 + n.gen as u64;
    if hit / 65536 == tag {
        let low = (hit % 65536) as i32;
        return if low < 32768 {
            low
        } else {
            low - 65536
        };
    }
    let mut fu: [u16; 96] = [0;96];
    let mut ft: [u16; 96] = [0;96];
    let count = features_both(pos, t, pos.stm, &mut fu, &mut ft);
    let ghost us = net::rows(*pos, pos.stm as int);
    let ghost them = net::rows(*pos, 1 - pos.stm);
    proof {
        assert(as_rows(fu@, count as int) =~= us);
        assert(as_rows(ft@, count as int) =~= them);
    }
    let a = accumulate(n, &fu, count);
    let b = accumulate(n, &ft, count);
    let k = bucket_of(popcount(pos.occ()) as usize);
    let w = k * 128;
    let x = propagate(n, &a, w, Ghost(us)) + propagate(n, &b, w + 64, Ghost(them));
    let y = n.out_b[k];
    let out = x.wrapping_add(y);
    let scaled = out.wrapping_mul(SCALE);
    proof {
        lemma_wrap32(x, y);
        lemma_wrap32(out, 400);
    }
    let q = scaled / (QA * QB);
    let score: i32 = if q < -20_000 {
        -20_000
    } else if q > 20_000 {
        20_000
    } else {
        q
    };
    let e = pack(pos.key, n.gen, score);
    proof {
        lemma_packed(pos.key, n.gen, score as int);
    }
    n.cache.set(slot, e);
    proof {
        assert(n@ =~= old(n)@.told(*pos));
    }
    score
}

} // verus!
