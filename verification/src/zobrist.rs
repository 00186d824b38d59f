//! Zobrist keys: one random word per (piece, square), castling state,
//! en-passant file and side to move, drawn from a fixed splitmix64 stream.

use vstd::prelude::*;
use crate::bits;

verus! {

pub const ZOBRIST_SEED: u64 = 0x1234_5678_9ABC_DEF0;

pub const ZOBRIST_STEP: u64 = 0x9E37_79B9_7F4A_7C15;

/// splitmix64's output function.
pub open spec fn mix(s: u64) -> u64 {
    let a = vstd::wrapping::u64_specs::wrapping_mul(s ^ (s >> 30), 0xBF58_476D_1CE4_E5B9);
    let b = vstd::wrapping::u64_specs::wrapping_mul(a ^ (a >> 27), 0x94D0_49BB_1331_11EB);
    b ^ (b >> 31)
}

/// State of the stream before draw `n`.
pub open spec fn stream(n: nat) -> u64
    decreases n,
{
    if n == 0 {
        ZOBRIST_SEED
    } else {
        vstd::wrapping::u64_specs::wrapping_add(stream((n - 1) as nat), ZOBRIST_STEP)
    }
}

/// Draw `n` of the stream, counting from 0.
pub open spec fn draw(n: nat) -> u64 {
    mix(stream(n + 1))
}

/// Key of a piece on a square. The piece is `colour * 6 + type`.
pub open spec fn zpsq(code: int, s: int) -> u64 {
    draw((code * 64 + s) as nat)
}

/// Key of a set of castling rights.
pub open spec fn zcastle(c: int) -> u64 {
    draw((768 + c) as nat)
}

/// Key of an en-passant file.
pub open spec fn zep(f: int) -> u64 {
    draw((784 + f) as nat)
}

/// Key of black being to move.
pub open spec fn zside() -> u64 {
    draw(792)
}

pub struct Zobrist {
    pub psq: [[[u64; 64]; 6]; 2],
    pub castle: [u64; 16],
    pub ep: [u64; 8],
    pub side: u64,
}

impl Zobrist {
    pub open spec fn wf(self) -> bool {
        &&& forall|c: int, p: int, s: int|
            0 <= c < 2 && 0 <= p < 6 && 0 <= s < 64 ==> #[trigger] self.psq@[c]@[p]@[s] == zpsq(
                c * 6 + p,
                s,
            )
        &&& forall|i: int| 0 <= i < 16 ==> #[trigger] self.castle@[i] == zcastle(i)
        &&& forall|i: int| 0 <= i < 8 ==> #[trigger] self.ep@[i] == zep(i)
        &&& self.side == zside()
    }
}

/// Advance the stream and return its next draw.
fn next(s: &mut u64) -> (r: u64)
    ensures
        *final(s) == vstd::wrapping::u64_specs::wrapping_add(*old(s), ZOBRIST_STEP),
        r == mix(*final(s)),
{
    *s = s.wrapping_add(ZOBRIST_STEP);
    let mut z = *s;
    z = (z ^ (z >> 30)).wrapping_mul(0xBF58_476D_1CE4_E5B9);
    z = (z ^ (z >> 27)).wrapping_mul(0x94D0_49BB_1331_11EB);
    z ^ (z >> 31)
}

/// Draw the 64 keys of one piece.
fn square_keys(s: &mut u64, Ghost(n): Ghost<nat>) -> (r: [u64; 64])
    requires
        *old(s) == stream(n),
    ensures
        *final(s) == stream(n + 64),
        forall|i: int| 0 <= i < 64 ==> #[trigger] r@[i] == draw((n + i) as nat),
{
    let mut r = [0u64; 64];
    let mut i: usize = 0;
    while i < 64
        invariant
            i <= 64,
            *s == stream((n + i) as nat),
            forall|j: int| 0 <= j < i ==> #[trigger] r@[j] == draw((n + j) as nat),
        decreases 64 - i,
    {
        r[i] = next(s);
        i = i + 1;
    }
    r
}

/// Draw the keys of the six pieces of one colour.
fn side_keys(s: &mut u64, Ghost(n): Ghost<nat>) -> (r: [[u64; 64]; 6])
    requires
        *old(s) == stream(n),
    ensures
        *final(s) == stream(n + 384),
        forall|p: int, i: int|
            0 <= p < 6 && 0 <= i < 64 ==> #[trigger] r@[p]@[i] == draw((n + p * 64 + i) as nat),
{
    let a = square_keys(s, Ghost(n));
    let b = square_keys(s, Ghost((n + 64) as nat));
    let c = square_keys(s, Ghost((n + 128) as nat));
    let d = square_keys(s, Ghost((n + 192) as nat));
    let e = square_keys(s, Ghost((n + 256) as nat));
    let f = square_keys(s, Ghost((n + 320) as nat));
    let r = [a, b, c, d, e, f];
    assert(r@[0] == a && r@[1] == b && r@[2] == c && r@[3] == d && r@[4] == e && r@[5] == f);
    r
}

pub fn init_zobrist() -> (z: Zobrist)
    ensures
        z.wf(),
{
    let mut s = ZOBRIST_SEED;
    let w = side_keys(&mut s, Ghost(0));
    let b = side_keys(&mut s, Ghost(384));
    let psq = [w, b];
    assert(psq@[0] == w && psq@[1] == b);
    let mut castle = [0u64; 16];
    let mut i: usize = 0;
    while i < 16
        invariant
            i <= 16,
            s == stream((768 + i) as nat),
            forall|j: int| 0 <= j < i ==> #[trigger] castle@[j] == zcastle(j),
        decreases 16 - i,
    {
        castle[i] = next(&mut s);
        i = i + 1;
    }
    let mut ep = [0u64; 8];
    let mut i: usize = 0;
    while i < 8
        invariant
            i <= 8,
            s == stream((784 + i) as nat),
            forall|j: int| 0 <= j < i ==> #[trigger] ep@[j] == zep(j),
        decreases 8 - i,
    {
        ep[i] = next(&mut s);
        i = i + 1;
    }
    let side = next(&mut s);
    Zobrist { psq, castle, ep, side }
}

// ---------------------------------------------------------------------------
// No two draws are equal
// ---------------------------------------------------------------------------

/// A shift folded back in loses nothing.
proof fn lemma_fold(x: u64, y: u64)
    ensures
        x ^ (x >> 30) == y ^ (y >> 30) ==> x == y,
        x ^ (x >> 27) == y ^ (y >> 27) ==> x == y,
        x ^ (x >> 31) == y ^ (y >> 31) ==> x == y,
{
    assert((x ^ (x >> 30) == y ^ (y >> 30) ==> x == y) && (x ^ (x >> 27) == y ^ (y >> 27) ==> x
        == y) && (x ^ (x >> 31) == y ^ (y >> 31) ==> x == y)) by (bit_vector);
}

/// What a factor with an inverse did can be undone.
proof fn lemma_unfactor(x: int, m: int, inverse: int)
    requires
        0 <= x < 0x1_0000_0000_0000_0000,
        (m * inverse) % 0x1_0000_0000_0000_0000 == 1,
    ensures
        ((x * m) % 0x1_0000_0000_0000_0000 * inverse) % 0x1_0000_0000_0000_0000 == x,
{
    let r = 0x1_0000_0000_0000_0000int;
    vstd::arithmetic::div_mod::lemma_mul_mod_noop_left(x * m, inverse, r);
    vstd::arithmetic::mul::lemma_mul_is_associative(x, m, inverse);
    vstd::arithmetic::div_mod::lemma_mul_mod_noop_right(x, m * inverse, r);
    vstd::arithmetic::div_mod::lemma_small_mod(x as nat, r as nat);
}

/// Different states give different draws.
proof fn lemma_mix(s: u64, t: u64)
    requires
        mix(s) == mix(t),
    ensures
        s == t,
{
    let (m, n) = (0xBF58_476D_1CE4_E5B9u64, 0x94D0_49BB_1331_11EBu64);
    let (i, j) = (0x96DE_1B17_3F11_9089int, 0x3196_42B2_D24D_8EC3int);
    let (s1, t1) = (s ^ (s >> 30), t ^ (t >> 30));
    let (a, b) = (
        vstd::wrapping::u64_specs::wrapping_mul(s1, m),
        vstd::wrapping::u64_specs::wrapping_mul(t1, m),
    );
    let (a1, b1) = (a ^ (a >> 27), b ^ (b >> 27));
    let (c, d) = (
        vstd::wrapping::u64_specs::wrapping_mul(a1, n),
        vstd::wrapping::u64_specs::wrapping_mul(b1, n),
    );
    lemma_fold(c, d);
    lemma_unfactor(a1 as int, n as int, j);
    lemma_unfactor(b1 as int, n as int, j);
    lemma_fold(a, b);
    lemma_unfactor(s1 as int, m as int, i);
    lemma_unfactor(t1 as int, m as int, i);
    lemma_fold(s, t);
}

/// The stream in one step.
proof fn lemma_stream(n: nat)
    ensures
        stream(n) == (ZOBRIST_SEED + n * ZOBRIST_STEP) % 0x1_0000_0000_0000_0000,
    decreases n,
{
    if n > 0 {
        let k = n - 1;
        lemma_stream(k as nat);
        let x = ZOBRIST_SEED + k * ZOBRIST_STEP;
        assert(ZOBRIST_SEED + n * ZOBRIST_STEP == x + ZOBRIST_STEP) by (nonlinear_arith)
            requires
                k == n - 1,
                x == ZOBRIST_SEED + k * ZOBRIST_STEP,
        ;
        lemma_step(x);
    }
}

proof fn lemma_step(x: int)
    ensures
        vstd::wrapping::u64_specs::wrapping_add(
            (x % 0x1_0000_0000_0000_0000) as u64,
            ZOBRIST_STEP,
        ) == (x + ZOBRIST_STEP) % 0x1_0000_0000_0000_0000,
{
}

/// The turn always shows in the key: passing it changes the key, with or
/// without an en-passant file to forget.
pub proof fn law_the_turn_shows(f: int)
    requires
        0 <= f < 8,
    ensures
        zside() != 0,
        zside() ^ zep(f) != 0,
{
    lemma_stream(793);
    lemma_stream((785 + f) as nat);
    let (a, b) = (zside(), zep(f));
    if a == 0 {
        let z = 0u64;
        assert(z ^ (z >> 30) == 0 && z ^ (z >> 27) == 0 && z ^ (z >> 31) == 0) by (bit_vector)
            requires
                z == 0,
        ;
        assert(mix(0) == 0);
        lemma_mix(stream(793), 0);
    }
    if a == b {
        lemma_mix(stream(793), stream((785 + f) as nat));
    }
    assert(a ^ b == 0 ==> a == b) by (bit_vector);
}

// ---------------------------------------------------------------------------
// Keys of a whole board
// ---------------------------------------------------------------------------

/// The code of an empty square.
pub const EMPTY: u8 = 12;

/// Which pieces a key covers.
pub enum Cover {
    All,
    Pawns,
    Others,
}

/// A piece code that the key covers.
pub open spec fn covers(k: Cover, code: int) -> bool {
    0 <= code < 12 && match k {
        Cover::All => true,
        Cover::Pawns => code % 6 == 0,
        Cover::Others => code % 6 != 0,
    }
}

/// What one square contributes.
pub open spec fn term(k: Cover, code: int, s: int) -> u64 {
    if covers(k, code) {
        zpsq(code, s)
    } else {
        0
    }
}

/// The keys of the first `n` squares, combined.
pub open spec fn board_key(k: Cover, cells: Seq<int>, n: nat) -> u64
    decreases n,
{
    if n == 0 {
        0
    } else {
        board_key(k, cells, (n - 1) as nat) ^ term(k, cells[n - 1], n - 1)
    }
}

/// Rewriting one square swaps its contribution.
pub proof fn lemma_board_key_update(k: Cover, cells: Seq<int>, s: int, code: int, n: nat)
    requires
        0 <= s < cells.len(),
        n <= cells.len(),
    ensures
        board_key(k, cells.update(s, code), n) == if s < n {
            board_key(k, cells, n) ^ term(k, cells[s], s) ^ term(k, code, s)
        } else {
            board_key(k, cells, n)
        },
    decreases n,
{
    if n > 0 {
        lemma_board_key_update(k, cells, s, code, (n - 1) as nat);
        let h = board_key(k, cells, (n - 1) as nat);
        let (a, b) = (term(k, cells[s], s), term(k, code, s));
        if s == n - 1 {
            bits::lemma_xor(h, a, b);
            assert(h ^ b == h ^ a ^ a ^ b);
        } else if s < n {
            let c = term(k, cells[n - 1], n - 1);
            bits::lemma_xor_swap(h, a, b, c);
        }
    }
}

} // verus!
