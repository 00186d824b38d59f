//! Input on its way to the engine: a buffer that is read line by line, and
//! looked through for an order to stop while a search is running.

use vstd::prelude::*;
use crate::clock;
use crate::uci;

verus! {

/// The most bytes that are held.
pub const IN_CAP: usize = 65_536;

/// The most bytes that a command line can have.
pub const LINE_CAP: usize = 4095;

pub struct InBuf {
    pub buf: Vec<u8>,
    /// Everything before has been looked through.
    pub scanned: usize,
    pub eof: bool,
    pub stop: bool,
}

/// `stop` stands at `i`.
pub open spec fn stop_at(s: Seq<u8>, i: int) -> bool {
    0 <= i && i + 4 <= s.len() && s[i] == 115 && s[i + 1] == 116 && s[i + 2] == 111 && s[i + 3]
        == 112
}

/// `quit` stands at `i`.
pub open spec fn quit_at(s: Seq<u8>, i: int) -> bool {
    0 <= i && i + 4 <= s.len() && s[i] == 113 && s[i + 1] == 117 && s[i + 2] == 105 && s[i + 3]
        == 116
}

pub open spec fn order_at(s: Seq<u8>, i: int) -> bool {
    stop_at(s, i) || quit_at(s, i)
}

/// An order to stop has arrived.
pub open spec fn told(s: Seq<u8>) -> bool {
    exists|i: int| #[trigger] order_at(s, i)
}

/// Where the first line ends.
pub open spec fn first_line(s: Seq<u8>) -> int {
    uci::seek_byte(s, 10, 0)
}

impl InBuf {
    pub open spec fn view(&self) -> Seq<u8> {
        self.buf@
    }

    pub open spec fn wf(self) -> bool {
        &&& self.buf@.len() <= 65_536
        &&& self.scanned <= self.buf@.len()
        &&& forall|i: int| 0 <= i < self.scanned ==> !#[trigger] order_at(self.buf@, i)
        &&& self.scanned > 0 ==> self.scanned + 3 <= self.buf@.len()
    }

    pub fn new() -> (b: InBuf)
        ensures
            b.wf(),
            b@.len() == 0,
            !b.eof,
            !b.stop,
    {
        InBuf { buf: Vec::new(), scanned: 0, eof: false, stop: false }
    }

    /// Make room, and say how many bytes can be taken in. Nothing is, once the
    /// input is over or while complete lines fill the buffer; input that fills
    /// it without a line end is dropped.
    pub fn room(&mut self) -> (n: usize)
        requires
            old(self).wf(),
        ensures
            final(self).wf(),
            final(self).eof == old(self).eof,
            final(self).stop == old(self).stop,
            old(self).eof ==> n == 0 && final(self)@ == old(self)@,
            !old(self).eof && old(self)@.len() < 65_536 ==> n == 65_536 - old(self)@.len()
                && final(self)@ == old(self)@,
            !old(self).eof && old(self)@.len() == 65_536 && first_line(old(self)@) < 65_536 ==> n == 0
                && final(self)@ == old(self)@,
            !old(self).eof && old(self)@.len() == 65_536 && first_line(old(self)@) >= 65_536 ==> n
                == 65_536 && final(self)@.len() == 0,
    {
        if self.eof {
            return 0;
        }
        if self.buf.len() == IN_CAP {
            if self.line_end().is_some() {
                return 0;
            }
            self.buf.clear();
            self.scanned = 0;
        }
        IN_CAP - self.buf.len()
    }

    /// Take in what was read; nothing means that the input is over.
    pub fn feed(&mut self, bytes: &[u8])
        requires
            old(self).wf(),
            old(self)@.len() + bytes@.len() <= 65_536,
        ensures
            final(self).wf(),
            final(self)@ == old(self)@ + bytes@,
            final(self).eof == (old(self).eof || bytes@.len() == 0),
            final(self).stop == old(self).stop,
    {
        let n = bytes.len();
        if n == 0 {
            self.eof = true;
        }
        let mut i: usize = 0;
        while i < n
            invariant
                i <= n == bytes@.len(),
                self.scanned == old(self).scanned,
                self.stop == old(self).stop,
                self.eof == (old(self).eof || bytes@.len() == 0),
                self.buf@ == old(self).buf@ + bytes@.take(i as int),
            decreases n - i,
        {
            self.buf.push(bytes[i]);
            proof {
                assert(self.buf@ =~= old(self).buf@ + bytes@.take(i + 1));
            }
            i = i + 1;
        }
        proof {
            assert(bytes@.take(n as int) =~= bytes@);
            assert forall|i: int| 0 <= i < self.scanned implies !#[trigger] order_at(self.buf@, i) by {
                assert(!order_at(old(self).buf@, i));
            }
        }
    }

    /// Where the first line ends, if it does.
    pub fn line_end(&self) -> (r: Option<usize>)
        requires
            self.wf(),
        ensures
            match r {
                Some(e) => e == first_line(self@) && e < self@.len(),
                None => first_line(self@) >= self@.len(),
            },
    {
        let n = self.buf.len();
        let mut i: usize = 0;
        while i < n && self.buf[i] != 10
            invariant
                i <= n == self.buf@.len(),
                first_line(self@) == uci::seek_byte(self@, 10, i as int),
            decreases n - i,
        {
            i = i + 1;
        }
        if i < n {
            Some(i)
        } else {
            None
        }
    }

    /// Drop the first `upto` bytes.
    fn consume(&mut self, upto: usize)
        requires
            old(self).wf(),
            upto <= old(self)@.len(),
        ensures
            final(self).wf(),
            final(self)@ == old(self)@.skip(upto as int),
            final(self).eof == old(self).eof,
            final(self).stop == old(self).stop,
    {
        let n = self.buf.len();
        let mut rest: Vec<u8> = Vec::new();
        let mut i = upto;
        while i < n
            invariant
                upto <= i <= n == self.buf@.len(),
                rest@ == self.buf@.subrange(upto as int, i as int),
            decreases n - i,
        {
            rest.push(self.buf[i]);
            proof {
                assert(rest@ =~= self.buf@.subrange(upto as int, i + 1));
            }
            i = i + 1;
        }
        proof {
            assert(rest@ =~= self.buf@.skip(upto as int));
        }
        self.buf = rest;
        self.scanned = 0;
    }

    /// Has an order to stop arrived? Only bytes that have arrived since the last
    /// look are looked at.
    pub fn interrupted(&mut self) -> (r: bool)
        requires
            old(self).wf(),
        ensures
            final(self).wf(),
            final(self)@ == old(self)@,
            final(self).eof == old(self).eof,
            r == (old(self).stop || told(old(self)@)),
            final(self).stop == r,
    {
        if self.stop {
            return true;
        }
        let n = self.buf.len();
        while self.scanned + 4 <= n
            invariant
                self.wf(),
                n == self.buf@.len(),
                self.buf == old(self).buf,
                self.eof == old(self).eof,
                !self.stop,
                !old(self).stop,
            decreases n - self.scanned,
        {
            let s = self.scanned;
            let (a, b, c, d) = (self.buf[s], self.buf[s + 1], self.buf[s + 2], self.buf[s + 3]);
            if (a == 115 && b == 116 && c == 111 && d == 112) || (a == 113 && b == 117 && c == 105
                && d == 116) {
                assert(order_at(self.buf@, s as int));
                self.stop = true;
                return true;
            }
            assert(!order_at(self.buf@, s as int));
            self.scanned = s + 1;
        }
        false
    }

    /// Forget an earlier order to stop.
    pub fn rearm(&mut self)
        requires
            old(self).wf(),
        ensures
            *final(self) == (InBuf { stop: false, ..*old(self) }),
            final(self).wf(),
    {
        self.stop = false;
    }

    /// The next command line, without its end. What is too long is cut off.
    pub fn take_line(&mut self) -> (r: Option<Vec<u8>>)
        requires
            old(self).wf(),
        ensures
            final(self).wf(),
            final(self).eof == old(self).eof,
            final(self).stop == old(self).stop,
            first_line(old(self)@) >= old(self)@.len() ==> r is None && *final(self) == *old(self),
            first_line(old(self)@) < old(self)@.len() ==> {
                let e = first_line(old(self)@);
                &&& r matches Some(v) && v@ == old(self)@.take(clock::min(e, 4095))
                &&& final(self)@ == old(self)@.skip(e + 1)
            },
    {
        match self.line_end() {
            Some(e) => {
                let n = if e < LINE_CAP {
                    e
                } else {
                    LINE_CAP
                };
                let line = self.copy_front(n);
                self.consume(e + 1);
                Some(line)
            },
            None => None,
        }
    }

    /// The next line of bulk input: up to a carriage return, if it has one.
    pub fn take_bulk(&mut self) -> (r: Option<Vec<u8>>)
        requires
            old(self).wf(),
        ensures
            final(self).wf(),
            final(self).eof == old(self).eof,
            final(self).stop == old(self).stop,
            first_line(old(self)@) >= old(self)@.len() ==> r is None && *final(self) == *old(self),
            first_line(old(self)@) < old(self)@.len() ==> {
                let e = first_line(old(self)@);
                &&& r matches Some(v) && v@ == old(self)@.take(
                    clock::min(e, uci::seek_byte(old(self)@, 13, 0)),
                )
                &&& final(self)@ == old(self)@.skip(e + 1)
            },
    {
        match self.line_end() {
            Some(e) => {
                let mut i: usize = 0;
                while i < e && self.buf[i] != 13
                    invariant
                        i <= e < self.buf@.len(),
                        uci::seek_byte(self@, 13, 0) == uci::seek_byte(self@, 13, i as int),
                    decreases e - i,
                {
                    i = i + 1;
                }
                proof {
                    lemma_seek(self@, 13, i as int);
                }
                let line = self.copy_front(i);
                self.consume(e + 1);
                Some(line)
            },
            None => None,
        }
    }

    fn copy_front(&self, n: usize) -> (v: Vec<u8>)
        requires
            n <= self@.len(),
        ensures
            v@ == self@.take(n as int),
    {
        let mut v: Vec<u8> = Vec::new();
        let mut i: usize = 0;
        while i < n
            invariant
                i <= n <= self.buf@.len(),
                v@ == self.buf@.take(i as int),
            decreases n - i,
        {
            v.push(self.buf[i]);
            proof {
                assert(v@ =~= self.buf@.take(i + 1));
            }
            i = i + 1;
        }
        v
    }
}

proof fn lemma_seek(s: Seq<u8>, c: u8, i: int)
    requires
        0 <= i,
    ensures
        uci::seek_byte(s, c, i) >= i,
    decreases s.len() - i,
{
    if i < s.len() && s[i] != c {
        lemma_seek(s, c, i + 1);
    }
}

/// An order to stop that has arrived is still there once more bytes have.
pub proof fn law_orders_are_kept(a: Seq<u8>, b: Seq<u8>)
    requires
        told(a),
    ensures
        told(a + b),
{
    let i = choose|i: int| #[trigger] order_at(a, i);
    assert(order_at(a + b, i));
}

} // verus!
