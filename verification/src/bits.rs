//! Bitboards as sets of squares.
//!
//! A `u64` is read as the set of squares whose bit is set. `mem` is that
//! membership test; every bit operation the engine uses is described here by
//! what it does to membership, so the rest of the crate never reasons about
//! machine words directly.

use vstd::prelude::*;

verus! {

/// Square `s` belongs to the set `b`.
#[verifier::opaque]
pub open spec fn mem(b: u64, s: int) -> bool {
    0 <= s < 64 && (b >> (s as u64)) & 1u64 == 1u64
}

/// The set holding only square `s`.
pub open spec fn one(s: int) -> u64 {
    1u64 << (s as u64)
}

/// The lowest square of a non-empty set; 64 for the empty one.
pub open spec fn low(b: u64) -> int {
    vstd::std_specs::bits::u64_trailing_zeros(b) as int
}

/// The set without its lowest square.
pub open spec fn rest(b: u64) -> u64 {
    (b & ((b - 1) as u64)) as u64
}

/// Number of squares in the set.
pub open spec fn card(b: u64) -> nat
    decreases b,
{
    if b == 0 {
        0
    } else {
        proof {
            lemma_rest_smaller(b);
        }
        1 + card(rest(b))
    }
}

pub broadcast proof fn lemma_mem_range(b: u64, s: int)
    ensures
        #[trigger] mem(b, s) ==> 0 <= s < 64,
{
    reveal(mem);
}

pub broadcast proof fn lemma_mem_or(a: u64, b: u64, s: int)
    ensures
        #[trigger] mem(a | b, s) == (mem(a, s) || mem(b, s)),
{
    reveal(mem);
    let k = s as u64;
    assert(((a | b) >> k) & 1u64 == 1u64 <==> ((a >> k) & 1u64 == 1u64 || (b >> k) & 1u64 == 1u64))
        by (bit_vector);
}

pub broadcast proof fn lemma_mem_and(a: u64, b: u64, s: int)
    ensures
        #[trigger] mem(a & b, s) == (mem(a, s) && mem(b, s)),
{
    reveal(mem);
    let k = s as u64;
    assert(((a & b) >> k) & 1u64 == 1u64 <==> ((a >> k) & 1u64 == 1u64 && (b >> k) & 1u64 == 1u64))
        by (bit_vector);
}

pub broadcast proof fn lemma_mem_xor(a: u64, b: u64, s: int)
    ensures
        #[trigger] mem(a ^ b, s) == (mem(a, s) != mem(b, s)),
{
    reveal(mem);
    let k = s as u64;
    assert(((a ^ b) >> k) & 1u64 == 1u64 <==> (((a >> k) & 1u64 == 1u64) != ((b >> k) & 1u64
        == 1u64))) by (bit_vector);
}

pub broadcast proof fn lemma_mem_not(a: u64, s: int)
    requires
        0 <= s < 64,
    ensures
        #[trigger] mem(!a, s) == !mem(a, s),
{
    reveal(mem);
    let k = s as u64;
    assert(k < 64 ==> (((!a) >> k) & 1u64 == 1u64 <==> !((a >> k) & 1u64 == 1u64)))
        by (bit_vector);
}

pub broadcast proof fn lemma_mem_zero(s: int)
    ensures
        !(#[trigger] mem(0u64, s)),
{
    reveal(mem);
    let k = s as u64;
    assert(!((0u64 >> k) & 1u64 == 1u64)) by (bit_vector);
}

pub broadcast proof fn lemma_mem_one(t: int, s: int)
    requires
        0 <= t < 64,
    ensures
        #[trigger] mem(one(t), s) == (s == t),
{
    reveal(mem);
    let k = s as u64;
    let j = t as u64;
    assert(k < 64 && j < 64 ==> (((1u64 << j) >> k) & 1u64 == 1u64 <==> k == j)) by (bit_vector);
}

/// Moving a set towards higher squares drops what leaves the board.
pub proof fn lemma_mem_shl(b: u64, n: u64, s: int)
    requires
        n < 64,
        0 <= s < 64,
    ensures
        mem(b << n, s) == mem(b, s - n),
{
    reveal(mem);
    let k = s as u64;
    assert(n < 64 && k < 64 ==> (((b << n) >> k) & 1u64 == 1u64 <==> (k >= n && (b >> ((k - n)
        as u64)) & 1u64 == 1u64))) by (bit_vector);
}

/// Moving a set towards lower squares drops what leaves the board.
pub proof fn lemma_mem_shr(b: u64, n: u64, s: int)
    requires
        n < 64,
        0 <= s < 64,
    ensures
        mem(b >> n, s) == mem(b, s + n),
{
    reveal(mem);
    let k = s as u64;
    assert(n < 64 && k < 64 ==> (((b >> n) >> k) & 1u64 == 1u64 <==> (k + n < 64 && (b >> ((k + n)
        as u64)) & 1u64 == 1u64))) by (bit_vector);
}

/// Two sets with the same members are the same word.
pub proof fn lemma_ext(a: u64, b: u64)
    requires
        forall|s: int| 0 <= s < 64 ==> mem(a, s) == mem(b, s),
    ensures
        a == b,
{
    let x = a ^ b;
    if x != 0 {
        vstd::std_specs::bits::axiom_u64_trailing_zeros(x);
        let t = low(x);
        assert(mem(x, t)) by {
            reveal(mem);
        }
        lemma_mem_xor(a, b, t);
    }
    assert(a ^ b == 0 ==> a == b) by (bit_vector);
}

/// A non-empty set has a lowest member.
pub proof fn lemma_low(b: u64)
    ensures
        0 <= low(b) <= 64,
        b == 0 <==> low(b) == 64,
        b != 0 ==> mem(b, low(b)),
        forall|s: int| #[trigger] mem(b, s) ==> s >= low(b),
{
    vstd::std_specs::bits::axiom_u64_trailing_zeros(b);
    reveal(mem);
    assert forall|s: int| #[trigger] mem(b, s) implies s >= low(b) by {
        if s < low(b) {
            let j = s as u64;
            assert((b >> j) & 1u64 == 0u64);
        }
    }
}

pub proof fn lemma_rest_smaller(b: u64)
    requires
        b != 0,
    ensures
        rest(b) < b,
{
    assert(b != 0 ==> (b & ((b - 1) as u64)) < b) by (bit_vector);
}

/// `rest` removes the lowest member and nothing else.
pub proof fn lemma_rest(b: u64)
    requires
        b != 0,
    ensures
        forall|s: int| #[trigger] mem(rest(b), s) == (mem(b, s) && s != low(b)),
        rest(b) == b ^ one(low(b)),
{
    vstd::std_specs::bits::axiom_u64_trailing_zeros(b);
    let t = low(b) as u64;
    assert(b & ((b - 1) as u64) == b ^ (1u64 << t)) by (bit_vector)
        requires
            t < 64,
            (b >> t) & 1u64 == 1u64,
            b << ((64 - t) as u64) == 0,
    ;
    lemma_low(b);
    assert forall|s: int| #[trigger] mem(rest(b), s) == (mem(b, s) && s != low(b)) by {
        lemma_mem_xor(b, one(low(b)), s);
        lemma_mem_one(low(b), s);
    }
}

/// An empty set has no member, and a set without members is empty.
pub proof fn lemma_empty(b: u64)
    ensures
        b == 0 <==> (forall|s: int| !mem(b, s)),
{
    lemma_low(b);
    if b == 0 {
        assert forall|s: int| !mem(b, s) by {
            lemma_mem_zero(s);
        }
    }
}

/// Testing one square.
pub broadcast proof fn lemma_and_one(b: u64, s: int)
    requires
        0 <= s < 64,
    ensures
        #![trigger b & one(s)]
        b & one(s) != 0 <==> mem(b, s),
        mem(b, s) ==> b & one(s) == one(s),
{
    lemma_empty(b & one(s));
    lemma_mem_and(b, one(s), s);
    lemma_mem_one(s, s);
    assert forall|t: int| #[trigger] mem(b & one(s), t) == (mem(b, s) && t == s) by {
        lemma_mem_and(b, one(s), t);
        lemma_mem_one(s, t);
    }
    if mem(b, s) {
        assert forall|t: int| 0 <= t < 64 implies mem(b & one(s), t) == mem(one(s), t) by {
            lemma_mem_one(s, t);
        }
        lemma_ext(b & one(s), one(s));
    }
}

pub broadcast group group_mem {
    lemma_mem_range,
    lemma_mem_or,
    lemma_mem_and,
    lemma_mem_xor,
    lemma_mem_not,
    lemma_mem_zero,
    lemma_mem_one,
    lemma_and_one,
}

/// Adding one square adds at most one member, exactly one if it is new.
pub proof fn lemma_card_or_one(b: u64, s: int)
    requires
        0 <= s < 64,
    ensures
        card(b | one(s)) == card(b) + if mem(b, s) { 0nat } else { 1nat },
    decreases b,
{
    broadcast use group_mem;
    let c = b | one(s);
    if mem(b, s) {
        lemma_ext(b, c);
    } else {
        lemma_low(b);
        lemma_low(c);
        assert(mem(c, s));
        lemma_empty(c);
        if b == 0 || s < low(b) {
            lemma_rest(c);
            if low(c) != s {
                assert(mem(b, low(c)));
            }
            lemma_ext(rest(c), b);
        } else {
            assert(mem(c, low(b)));
            assert(low(c) == low(b)) by {
                if low(c) < low(b) {
                    assert(mem(b, low(c)));
                }
            }
            lemma_rest(b);
            lemma_rest(c);
            lemma_rest_smaller(b);
            lemma_card_or_one(rest(b), s);
            assert(rest(c) == rest(b) | one(s)) by {
                assert forall|x: int| 0 <= x < 64 implies mem(rest(c), x) == mem(
                    rest(b) | one(s),
                    x,
                ) by {}
                lemma_ext(rest(c), rest(b) | one(s));
            }
        }
    }
}

/// A subset has no more members than the set.
pub proof fn lemma_card_subset(a: u64, b: u64)
    requires
        forall|s: int| #[trigger] mem(a, s) ==> mem(b, s),
    ensures
        card(a) <= card(b),
    decreases a,
{
    broadcast use group_mem;
    if a != 0 {
        lemma_low(a);
        lemma_rest(a);
        lemma_rest_smaller(a);
        let t = low(a);
        let b2 = b ^ one(t);
        assert(b == b2 | one(t)) by {
            lemma_ext(b, b2 | one(t));
        }
        lemma_card_or_one(b2, t);
        assert forall|s: int| #[trigger] mem(rest(a), s) implies mem(b2, s) by {}
        lemma_card_subset(rest(a), b2);
    }
}

/// A union has at most as many members as its parts together.
pub proof fn lemma_card_or(a: u64, b: u64)
    ensures
        card(a | b) <= card(a) + card(b),
    decreases a,
{
    broadcast use group_mem;
    if a == 0 {
        lemma_ext(a | b, b);
    } else {
        lemma_low(a);
        lemma_rest(a);
        lemma_rest_smaller(a);
        let t = low(a);
        let a2 = rest(a);
        lemma_card_or(a2, b);
        assert(a | b == (a2 | b) | one(t)) by {
            lemma_ext(a | b, (a2 | b) | one(t));
        }
        lemma_card_or_one(a2 | b, t);
    }
}

/// A union of sets without common members has the sum of their members.
pub proof fn lemma_card_disjoint(a: u64, b: u64)
    requires
        forall|s: int| #[trigger] mem(a, s) ==> !mem(b, s),
    ensures
        card(a | b) == card(a) + card(b),
    decreases a,
{
    broadcast use group_mem;
    if a == 0 {
        lemma_ext(a | b, b);
    } else {
        lemma_low(a);
        lemma_rest(a);
        lemma_rest_smaller(a);
        let t = low(a);
        let a2 = rest(a);
        assert forall|s: int| #[trigger] mem(a2, s) implies !mem(b, s) by {
            assert(mem(a, s));
        }
        lemma_card_disjoint(a2, b);
        assert(a | b == (a2 | b) | one(t)) by {
            lemma_ext(a | b, (a2 | b) | one(t));
        }
        lemma_card_or_one(a2 | b, t);
    }
}

/// Members all below `n` are at most `n`.
pub proof fn lemma_card_bound(b: u64, n: nat)
    requires
        n <= 64,
        forall|s: int| #[trigger] mem(b, s) ==> s < n,
    ensures
        card(b) <= n,
    decreases n,
{
    broadcast use group_mem;
    if n == 0 {
        lemma_empty(b);
    } else {
        let t = n - 1;
        if mem(b, t) {
            let b2 = b ^ one(t);
            lemma_ext(b, b2 | one(t));
            lemma_card_or_one(b2, t);
            assert forall|s: int| #[trigger] mem(b2, s) implies s < t by {
                assert(mem(b, s));
            }
            lemma_card_bound(b2, t as nat);
        } else {
            lemma_card_bound(b, t as nat);
        }
    }
}

/// A set has at most 64 members.
pub proof fn lemma_card_64(b: u64)
    ensures
        card(b) <= 64,
{
    broadcast use group_mem;
    lemma_card_bound(b, 64);
}

/// A set whose members all appear in a list is no larger than the list.
pub proof fn lemma_card_cover(b: u64, q: Seq<int>)
    requires
        forall|s: int| #[trigger] mem(b, s) ==> q.contains(s),
    ensures
        card(b) <= q.len(),
    decreases q.len(),
{
    broadcast use group_mem;
    if q.len() == 0 {
        assert forall|s: int| !mem(b, s) by {
            if mem(b, s) {
                assert(q.contains(s));
            }
        }
        lemma_empty(b);
    } else {
        let t = q.last();
        let q2 = q.drop_last();
        if mem(b, t) {
            let b2 = b ^ one(t);
            lemma_ext(b, b2 | one(t));
            lemma_card_or_one(b2, t);
            assert forall|s: int| #[trigger] mem(b2, s) implies q2.contains(s) by {
                assert(mem(b, s) && s != t);
                let i = choose|i: int| 0 <= i < q.len() && q[i] == s;
                assert(q2[i] == s);
            }
            lemma_card_cover(b2, q2);
        } else {
            assert forall|s: int| #[trigger] mem(b, s) implies q2.contains(s) by {
                let i = choose|i: int| 0 <= i < q.len() && q[i] == s;
                assert(q2[i] == s);
            }
            lemma_card_cover(b, q2);
        }
    }
}

/// One member means exactly one square.
pub proof fn lemma_card_one(b: u64)
    ensures
        card(b) == 0 <==> b == 0,
        card(b) <= 1 <==> (forall|s: int, t: int| #![trigger mem(b, s), mem(b, t)] mem(b, s)
            && mem(b, t) ==> s == t),
{
    broadcast use group_mem;
    reveal_with_fuel(card, 3);
    lemma_low(b);
    lemma_empty(b);
    if b != 0 {
        lemma_rest(b);
        lemma_empty(rest(b));
        lemma_low(rest(b));
        if rest(b) != 0 {
            lemma_rest_smaller(rest(b));
            assert(mem(b, low(rest(b))) && mem(b, low(b)));
            assert(low(rest(b)) != low(b));
        } else {
            assert forall|s: int, t: int| mem(b, s) && mem(b, t) implies s == t by {
                assert(!mem(rest(b), s) && !mem(rest(b), t));
            }
        }
    }
}

/// Exclusive or is its own inverse.
pub proof fn lemma_xor(h: u64, a: u64, b: u64)
    ensures
        h ^ a ^ a == h,
        h ^ a ^ b == h ^ b ^ a,
        h ^ a ^ a ^ b == h ^ b,
        h ^ (a ^ b) == h ^ a ^ b,
        h ^ 0 == h,
        a ^ b == b ^ a,
{
    assert(h ^ a ^ a == h && h ^ a ^ b == h ^ b ^ a && h ^ a ^ a ^ b == h ^ b && h ^ (a ^ b) == h
        ^ a ^ b && h ^ 0 == h && a ^ b == b ^ a) by (bit_vector);
}

pub proof fn lemma_xor_swap(h: u64, a: u64, b: u64, c: u64)
    ensures
        h ^ a ^ b ^ c == h ^ c ^ a ^ b,
{
    assert(h ^ a ^ b ^ c == h ^ c ^ a ^ b) by (bit_vector);
}

/// Changing both sides alike changes nothing between them.
pub proof fn lemma_xor_pair(x: u64, y: u64, a: u64, b: u64)
    ensures
        (x ^ a ^ b) ^ (y ^ a ^ b) == x ^ y,
{
    assert((x ^ a ^ b) ^ (y ^ a ^ b) == x ^ y) by (bit_vector);
}

pub proof fn lemma_and_sym(a: u64, b: u64)
    ensures
        a & b == b & a,
{
    assert(a & b == b & a) by (bit_vector);
}

} // verus!
