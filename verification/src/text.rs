//! Reading lines of text: words, numbers and comparison.

use vstd::prelude::*;
use vstd::slice::slice_subrange;
use vstd::wrapping::u64_specs;
use crate::clock;
use crate::io;

verus! {

// ---------------------------------------------------------------------------
// Words
// ---------------------------------------------------------------------------

/// What stands between words: spaces and carriage returns.
pub open spec fn is_blank(c: u8) -> bool {
    c == 32 || c == 13
}

/// Where the blanks that start at `i` end.
pub open spec fn past_blanks(s: Seq<u8>, i: int) -> int
    decreases s.len() - i,
{
    if 0 <= i < s.len() && is_blank(s[i]) {
        past_blanks(s, i + 1)
    } else {
        i
    }
}

/// Where the word that starts at `i` ends. A zero byte ends the text.
pub open spec fn word_end(s: Seq<u8>, i: int) -> int
    decreases s.len() - i,
{
    if 0 <= i < s.len() && !is_blank(s[i]) && s[i] != 0 {
        word_end(s, i + 1)
    } else {
        i
    }
}

pub proof fn lemma_bounds(s: Seq<u8>, i: int)
    requires
        0 <= i <= s.len(),
    ensures
        i <= past_blanks(s, i) <= s.len(),
        i <= word_end(s, i) <= s.len(),
        i < s.len() && !is_blank(s[i]) && s[i] != 0 ==> i < word_end(s, i),
    decreases s.len() - i,
{
    if i < s.len() {
        lemma_bounds(s, i + 1);
    }
}

/// The words of a text from `i` on.
pub open spec fn words(s: Seq<u8>, i: int) -> Seq<Seq<u8>>
    decreases s.len() - i,
{
    if i < 0 || i > s.len() {
        Seq::empty()
    } else {
        proof {
            lemma_bounds(s, i);
            lemma_bounds(s, past_blanks(s, i));
        }
        let a = past_blanks(s, i);
        if a >= s.len() || s[a] == 0 {
            Seq::empty()
        } else if a < word_end(s, a) && word_end(s, a) <= s.len() {
            seq![s.subrange(a, word_end(s, a))] + words(s, word_end(s, a))
        } else {
            Seq::empty()
        }
    }
}

/// A text being read word by word.
pub struct Tokens<'a> {
    pub s: &'a [u8],
    pub i: usize,
}

impl<'a> Tokens<'a> {
    pub open spec fn wf(&self) -> bool {
        self.i <= self.s@.len()
    }

    /// The words still to come.
    pub open spec fn view(&self) -> Seq<Seq<u8>> {
        words(self.s@, self.i as int)
    }

    pub fn new(s: &'a [u8]) -> (t: Tokens<'a>)
        ensures
            t.wf(),
            t.s@ == s@,
            t@ == words(s@, 0),
    {
        Tokens { s, i: 0 }
    }

    pub fn next(&mut self) -> (r: Option<&'a [u8]>)
        requires
            old(self).wf(),
        ensures
            final(self).wf(),
            final(self).s == old(self).s,
            r is None ==> old(self)@.len() == 0 && final(self)@.len() == 0,
            r matches Some(w) ==> {
                &&& old(self)@.len() > 0
                &&& w@ == old(self)@[0]
                &&& final(self)@ == old(self)@.skip(1)
                &&& old(self).i < final(self).i
            },
    {
        let s = self.s;
        let n = s.len();
        let ghost i0 = self.i as int;
        proof {
            lemma_bounds(s@, i0);
        }
        let mut i = self.i;
        while i < n && (s[i] == 32 || s[i] == 13)
            invariant
                i <= n == s@.len(),
                i0 <= i,
                past_blanks(s@, i0) == past_blanks(s@, i as int),
            decreases n - i,
        {
            i = i + 1;
        }
        self.i = i;
        if i >= n || s[i] == 0 {
            return None;
        }
        let start = i;
        proof {
            lemma_bounds(s@, start as int);
        }
        while i < n && s[i] != 32 && s[i] != 13 && s[i] != 0
            invariant
                start <= i <= n == s@.len(),
                word_end(s@, start as int) == word_end(s@, i as int),
            decreases n - i,
        {
            i = i + 1;
        }
        self.i = i;
        proof {
            let rest = words(s@, i as int);
            assert(words(s@, i0) == seq![s@.subrange(start as int, i as int)] + rest);
            assert(words(s@, i0).skip(1) =~= rest);
        }
        Some(slice_subrange(s, start, i))
    }

    /// Are there no more words?
    pub fn done(&self) -> (r: bool)
        requires
            self.wf(),
        ensures
            r == (self@.len() == 0),
    {
        let mut t = Tokens { s: self.s, i: self.i };
        t.next().is_none()
    }
}

/// Are two texts the same?
pub fn same(a: &[u8], b: &[u8]) -> (r: bool)
    ensures
        r == (a@ == b@),
{
    if a.len() != b.len() {
        return false;
    }
    let n = a.len();
    let mut i: usize = 0;
    while i < n
        invariant
            i <= n == a@.len(),
            n == b@.len(),
            forall|j: int| 0 <= j < i ==> a@[j] == b@[j],
        decreases n - i,
    {
        if a[i] != b[i] {
            return false;
        }
        i = i + 1;
    }
    assert(a@ =~= b@);
    true
}

// ---------------------------------------------------------------------------
// Numbers
// ---------------------------------------------------------------------------

/// The number that the digits of a text spell, whatever else is in it, cut to
/// sixty-four bits.
pub open spec fn number_in(s: Seq<u8>) -> int
    decreases s.len(),
{
    if s.len() == 0 {
        0
    } else {
        let v = number_in(s.drop_last());
        if 48 <= s.last() <= 57 {
            clock::cut64(v * 10 + (s.last() - 48))
        } else {
            v
        }
    }
}

pub fn parse_u64(t: &[u8]) -> (r: u64)
    ensures
        r == number_in(t@),
{
    let n = t.len();
    let mut v: u64 = 0;
    let mut i: usize = 0;
    proof {
        assert(t@.take(0) =~= Seq::<u8>::empty());
    }
    while i < n
        invariant
            i <= n == t@.len(),
            v == number_in(t@.take(i as int)),
        decreases n - i,
    {
        let c = t[i];
        proof {
            let s = t@.take(i + 1);
            assert(s.drop_last() =~= t@.take(i as int));
            assert(s.last() == c);
        }
        if 48 <= c && c <= 57 {
            proof {
                lemma_shift(v as int, c as int - 48);
            }
            v = v.wrapping_mul(10).wrapping_add((c - 48) as u64);
        }
        i = i + 1;
    }
    assert(t@.take(n as int) =~= t@);
    v
}

proof fn lemma_shift(v: int, d: int)
    requires
        0 <= v <= u64::MAX,
        0 <= d <= 9,
    ensures
        u64_specs::wrapping_add(u64_specs::wrapping_mul(v as u64, 10), d as u64) == clock::cut64(
            v * 10 + d,
        ),
{
}

/// A number that was written out is read back.
pub proof fn law_numbers_read_back(v: u64)
    ensures
        number_in(io::digits(v as nat)) == v,
    decreases v,
{
    let d = io::digits(v as nat);
    if v < 10 {
        assert(d.drop_last() =~= Seq::<u8>::empty());
        assert(number_in(d.drop_last()) == 0);
    } else {
        law_numbers_read_back(v / 10);
        assert(d.drop_last() =~= io::digits((v / 10) as nat));
    }
}

/// The low thirty-two bits of a number, with sign.
pub open spec fn low_i32(v: int) -> int {
    let r = v % 0x1_0000_0000;
    if r < 0x8000_0000 {
        r
    } else {
        r - 0x1_0000_0000
    }
}

pub fn to_i32(v: u64) -> (r: i32)
    ensures
        r == low_i32(v as int),
{
    let x = (v % 0x1_0000_0000) as i64;
    if x < 0x8000_0000 {
        x as i32
    } else {
        (x - 0x1_0000_0000) as i32
    }
}

} // verus!
