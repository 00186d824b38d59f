//! Buffered output and number formatting.

use vstd::prelude::*;
use vstd::string::*;
use crate::host::Host;
use crate::geom;
use crate::moves::Move;

verus! {

/// The most bytes that one piece of text can have.
pub const CAP: usize = 8192;

/// Text on its way to the host. The view is everything that was ever written.
pub struct Out {
    pub buf: Vec<u8>,
    pub said: Ghost<Seq<u8>>,
}

/// As much of `b` as one piece can have.
pub open spec fn piece(b: Seq<u8>) -> Seq<u8> {
    if b.len() > 8192 {
        b.take(8192)
    } else {
        b
    }
}

/// A number in decimal.
pub open spec fn digits(v: nat) -> Seq<u8>
    decreases v,
{
    if v < 10 {
        seq![(48 + v) as u8]
    } else {
        digits(v / 10).push((48 + v % 10) as u8)
    }
}

/// A signed number in decimal.
pub open spec fn signed_digits(v: int) -> Seq<u8> {
    if v < 0 {
        seq![45u8] + digits((-v) as nat)
    } else {
        digits(v as nat)
    }
}

/// Long-algebraic move text: `e2e4`, `e7e8q`.
pub open spec fn move_text(m: Move) -> Seq<u8> {
    let head = seq![
        (97 + geom::fl(m.f())) as u8,
        (49 + geom::rk(m.f())) as u8,
        (97 + geom::fl(m.t())) as u8,
        (49 + geom::rk(m.t())) as u8,
    ];
    if m.pro() {
        head.push(promo_letter(m.promo_spec()))
    } else {
        head
    }
}

/// `n`, `b`, `r` or `q`.
pub open spec fn promo_letter(pt: int) -> u8 {
    if pt == 1 {
        110
    } else if pt == 2 {
        98
    } else if pt == 3 {
        114
    } else {
        113
    }
}

/// The text of a move tells its squares and its promotion.
pub proof fn law_move_text_is_faithful(a: Move, b: Move)
    requires
        move_text(a) == move_text(b),
    ensures
        a.f() == b.f(),
        a.t() == b.t(),
        a.pro() == b.pro(),
        a.pro() ==> a.promo_spec() == b.promo_spec(),
{
    let (x, y) = (move_text(a), move_text(b));
    assert(x.len() == y.len());
    assert(x[0] == y[0] && x[1] == y[1] && x[2] == y[2] && x[3] == y[3]);
    if a.pro() {
        assert(x[4] == y[4]);
    }
}

impl Out {
    /// Everything that was ever written.
    pub open spec fn view(&self) -> Seq<u8> {
        self.said@ + self.buf@
    }

    pub fn new() -> (o: Out)
        ensures
            o@ == Seq::<u8>::empty(),
            o.buf@.len() == 0,
    {
        let o = Out { buf: Vec::new(), said: Ghost(Seq::empty()) };
        proof {
            assert(o@ =~= Seq::<u8>::empty());
        }
        o
    }

    /// Write a piece of text.
    pub fn s(&mut self, b: &[u8]) -> (r: &mut Self)
        ensures
            r@ == old(self)@ + piece(b@),
            r.said == old(self).said,
            *final(self) == *final(r),
    {
        let n = if b.len() > CAP {
            CAP
        } else {
            b.len()
        };
        let mut i: usize = 0;
        while i < n
            invariant
                i <= n <= b@.len(),
                self.said == old(self).said,
                self.buf@ == old(self).buf@ + b@.take(i as int),
            decreases n - i,
        {
            self.buf.push(b[i]);
            proof {
                assert(b@.take(i + 1) =~= b@.take(i as int).push(b@[i as int]));
                assert(self.buf@ =~= old(self).buf@ + b@.take(i + 1));
            }
            i = i + 1;
        }
        proof {
            assert(b@.take(n as int) =~= piece(b@));
            assert(self@ =~= old(self)@ + piece(b@));
        }
        self
    }

    /// Write one character.
    pub fn c(&mut self, ch: u8) -> (r: &mut Self)
        ensures
            r@ == old(self)@.push(ch),
            r.said == old(self).said,
            *final(self) == *final(r),
    {
        self.buf.push(ch);
        proof {
            assert(self@ =~= old(self)@.push(ch));
        }
        self
    }

    /// Write a fixed text.
    pub fn say(&mut self, text: &str) -> (r: &mut Self)
        ensures
            r@ == old(self)@ + text.spec_bytes(),
            r.said == old(self).said,
            *final(self) == *final(r),
    {
        let b = text.as_bytes();
        let n = b.len();
        let mut i: usize = 0;
        while i < n
            invariant
                i <= n == b@.len(),
                self.said == old(self).said,
                self.buf@ == old(self).buf@ + b@.take(i as int),
            decreases n - i,
        {
            self.buf.push(b[i]);
            proof {
                assert(b@.take(i + 1) =~= b@.take(i as int).push(b@[i as int]));
                assert(self.buf@ =~= old(self).buf@ + b@.take(i + 1));
            }
            i = i + 1;
        }
        proof {
            assert(b@.take(n as int) =~= b@);
            assert(self@ =~= old(self)@ + text.spec_bytes());
        }
        self
    }

    /// Write a number.
    pub fn u(&mut self, v: u64) -> (r: &mut Self)
        ensures
            r@ == old(self)@ + digits(v as nat),
            r.said == old(self).said,
            *final(self) == *final(r),
    {
        let mut tmp: Vec<u8> = Vec::new();
        let mut x = v;
        while x >= 10
            invariant
                digits(v as nat) == digits(x as nat) + backwards(tmp@),
            decreases x,
        {
            let d = (48 + x % 10) as u8;
            proof {
                assert(backwards(tmp@.push(d)) =~= seq![d] + backwards(tmp@));
                assert(digits(x as nat) =~= digits((x / 10) as nat) + seq![d]);
                assert(digits(v as nat) =~= digits((x / 10) as nat) + backwards(tmp@.push(d)));
            }
            tmp.push(d);
            x = x / 10;
        }
        self.buf.push((48 + x) as u8);
        let ghost lead = seq![(48 + x) as u8];
        let n = tmp.len();
        let mut i: usize = 0;
        while i < n
            invariant
                i <= n == tmp@.len(),
                self.said == old(self).said,
                self.buf@ == old(self).buf@ + lead + backwards(tmp@).take(i as int),
            decreases n - i,
        {
            let d = tmp[n - 1 - i];
            self.buf.push(d);
            proof {
                assert(backwards(tmp@).take(i + 1) =~= backwards(tmp@).take(i as int).push(d));
                assert(self.buf@ =~= old(self).buf@ + lead + backwards(tmp@).take(i + 1));
            }
            i = i + 1;
        }
        proof {
            assert(backwards(tmp@).take(n as int) =~= backwards(tmp@));
            assert(digits(x as nat) =~= lead);
            assert(self@ =~= old(self)@ + digits(v as nat));
        }
        self
    }

    /// Write a signed number.
    pub fn i(&mut self, v: i64) -> (r: &mut Self)
        ensures
            r@ == old(self)@ + signed_digits(v as int),
            r.said == old(self).said,
            *final(self) == *final(r),
    {
        if v < 0 {
            self.c(45);
            let x = (-(v + 1)) as u64 + 1;
            let r = self.u(x);
            proof {
                assert(r@ =~= old(self)@ + signed_digits(v as int));
            }
            r
        } else {
            self.u(v as u64)
        }
    }

    /// Write a move.
    pub fn mv(&mut self, m: Move) -> (r: &mut Self)
        ensures
            r@ == old(self)@ + move_text(m),
            r.said == old(self).said,
            *final(self) == *final(r),
    {
        let mut buf: [u8; 6] = [0;6];
        let n = move_str(m, &mut buf);
        let mut i: usize = 0;
        while i < n
            invariant
                i <= n <= 6,
                self.said == old(self).said,
                self.buf@ == old(self).buf@ + buf@.take(i as int),
            decreases n - i,
        {
            self.buf.push(buf[i]);
            proof {
                assert(buf@.take(i + 1) =~= buf@.take(i as int).push(buf@[i as int]));
                assert(self.buf@ =~= old(self).buf@ + buf@.take(i + 1));
            }
            i = i + 1;
        }
        proof {
            assert(self@ =~= old(self)@ + move_text(m));
        }
        self
    }

    /// End a line and hand everything over.
    pub fn nl<H: Host>(&mut self, host: &mut H) -> (r: &mut Self)
        ensures
            final(host).heard() == old(host).heard(),
            r@ == old(self)@.push(10),
            r.buf@.len() == 0,
            final(host).shown() == old(host).shown() + old(self).buf@.push(10),
            carried(old(self).said@, r.said@, old(host).shown(), final(host).shown()),
            *final(self) == *final(r),
    {
        self.buf.push(10);
        proof {
            assert(self@ =~= old(self)@.push(10));
        }
        self.flush(host);
        self
    }

    /// Hand over what has been written.
    pub fn flush<H: Host>(&mut self, host: &mut H)
        ensures
            final(host).heard() == old(host).heard(),
            final(self)@ == old(self)@,
            final(self).buf@.len() == 0,
            final(host).shown() == old(host).shown() + old(self).buf@,
            carried(old(self).said@, final(self).said@, old(host).shown(), final(host).shown()),
    {
        if self.buf.len() > 0 {
            host.show(&self.buf);
            proof {
                self.said@ = self.said@ + self.buf@;
            }
            self.buf.clear();
        }
        proof {
            assert(self@ =~= old(self)@);
            assert(old(host).shown() + old(self).buf@ =~= host.shown());
            reveal(carried);
            assert(self.said@ =~= old(self).said@ + old(self).buf@);
            assert(self.said@.skip(old(self).said@.len() as int) =~= old(self).buf@);
            assert(self.said@.take(old(self).said@.len() as int) =~= old(self).said@);
        }
    }
}

/// What was handed over meanwhile is what the host was shown: `s` became `t`
/// while what was shown, `a`, became `b`.
#[verifier::opaque]
pub open spec fn carried(s: Seq<u8>, t: Seq<u8>, a: Seq<u8>, b: Seq<u8>) -> bool {
    &&& s.len() <= t.len()
    &&& t.take(s.len() as int) == s
    &&& b == a + t.skip(s.len() as int)
}

pub broadcast proof fn lemma_carried_nothing(s: Seq<u8>, a: Seq<u8>)
    ensures
        #[trigger] carried(s, s, a, a),
{
    reveal(carried);
    assert(s.take(s.len() as int) =~= s);
    assert(a + s.skip(s.len() as int) =~= a);
}

pub broadcast proof fn lemma_carried_on(
    s: Seq<u8>,
    t: Seq<u8>,
    u: Seq<u8>,
    a: Seq<u8>,
    b: Seq<u8>,
    c: Seq<u8>,
)
    requires
        #[trigger] carried(s, t, a, b),
        #[trigger] carried(t, u, b, c),
    ensures
        carried(s, u, a, c),
{
    reveal(carried);
    assert(u.take(s.len() as int) =~= u.take(t.len() as int).take(s.len() as int));
    let x = t.skip(s.len() as int);
    let y = u.skip(t.len() as int);
    assert(u.skip(s.len() as int) =~= x + y) by {
        assert forall|i: int| 0 <= i < u.len() - s.len() implies u.skip(s.len() as int)[i] == (x
            + y)[i] by {
            if i < t.len() - s.len() {
                assert(u.take(t.len() as int)[s.len() + i] == t[s.len() + i]);
            }
        }
    }
    assert(a + x + y =~= a + (x + y));
}

pub broadcast group group_carried {
    lemma_carried_nothing,
    lemma_carried_on,
}

/// A text from its end.
pub open spec fn backwards(s: Seq<u8>) -> Seq<u8> {
    Seq::new(s.len(), |i: int| s[s.len() - 1 - i])
}

/// Long-algebraic move text: `e2e4`, `e7e8q`. Its length is handed back.
pub fn move_str(m: Move, out: &mut [u8; 6]) -> (n: usize)
    ensures
        n == move_text(m).len(),
        n <= 5,
        final(out)@.take(n as int) == move_text(m),
        forall|i: int| n <= i < 6 ==> #[trigger] final(out)@[i] == old(out)@[i],
{
    let f = m.from();
    let t = m.to();
    out[0] = (97 + f % 8) as u8;
    out[1] = (49 + f / 8) as u8;
    out[2] = (97 + t % 8) as u8;
    out[3] = (49 + t / 8) as u8;
    if m.is_promo() {
        let pt = m.promo();
        out[4] = if pt == 1 {
            110
        } else if pt == 2 {
            98
        } else if pt == 3 {
            114
        } else {
            113
        };
        assert(out@.take(5) =~= move_text(m));
        5
    } else {
        assert(out@.take(4) =~= move_text(m));
        4
    }
}

} // verus!
