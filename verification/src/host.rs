//! The program around the library: what it is asked, and what it is shown.

use vstd::prelude::*;

verus! {

/// The program around the library, as it answers when it is asked.
pub trait Console {
    /// Milliseconds on a clock that does not run backwards.
    fn now_ms(&mut self) -> u64;

    /// Was the search told to end?
    fn interrupted(&mut self) -> bool;

    /// Forget an earlier interruption.
    fn rearm(&mut self);

    /// Finished output is ready to be read.
    fn show(&mut self, text: &Vec<u8>);
}

/// Something that passed between the library and the program around it.
pub enum Heard {
    /// The clock was read.
    Time(u64),
    /// It was asked whether to end, and this was the answer.
    Halt(bool),
    /// An earlier interruption was to be forgotten.
    Rearmed,
}

/// What a search asks of the program around it, with an account of everything
/// that was said.
pub trait Host {
    /// Everything that was shown so far.
    spec fn shown(&self) -> Seq<u8>;

    /// Everything that was asked so far, and what the answers were.
    spec fn heard(&self) -> Seq<Heard>;

    /// Milliseconds on a clock that does not run backwards.
    fn now_ms(&mut self) -> (r: u64)
        ensures
            final(self).shown() == old(self).shown(),
            final(self).heard() == old(self).heard().push(Heard::Time(r)),
    ;

    /// Was the search told to end?
    fn interrupted(&mut self) -> (r: bool)
        ensures
            final(self).shown() == old(self).shown(),
            final(self).heard() == old(self).heard().push(Heard::Halt(r)),
    ;

    /// Forget an earlier interruption.
    fn rearm(&mut self)
        ensures
            final(self).shown() == old(self).shown(),
            final(self).heard() == old(self).heard().push(Heard::Rearmed),
    ;

    /// Finished output is ready to be read.
    fn show(&mut self, text: &Vec<u8>)
        ensures
            final(self).shown() == old(self).shown() + text@,
            final(self).heard() == old(self).heard(),
    ;
}

/// A console, and an account of what was said to it and what it answered.
pub struct Wire<C: Console> {
    pub console: C,
    pub shown: Ghost<Seq<u8>>,
    pub heard: Ghost<Seq<Heard>>,
}

impl<C: Console> Wire<C> {
    pub fn new(console: C) -> (w: Wire<C>)
        ensures
            w.console == console,
            w.shown() == Seq::<u8>::empty(),
            w.heard() == Seq::<Heard>::empty(),
    {
        Wire { console, shown: Ghost(Seq::empty()), heard: Ghost(Seq::empty()) }
    }
}

impl<C: Console> Host for Wire<C> {
    open spec fn shown(&self) -> Seq<u8> {
        self.shown@
    }

    open spec fn heard(&self) -> Seq<Heard> {
        self.heard@
    }

    fn now_ms(&mut self) -> (r: u64) {
        let r = self.console.now_ms();
        proof {
            self.heard@ = self.heard@.push(Heard::Time(r));
        }
        r
    }

    fn interrupted(&mut self) -> (r: bool) {
        let r = self.console.interrupted();
        proof {
            self.heard@ = self.heard@.push(Heard::Halt(r));
        }
        r
    }

    fn rearm(&mut self) {
        self.console.rearm();
        proof {
            self.heard@ = self.heard@.push(Heard::Rearmed);
        }
    }

    fn show(&mut self, text: &Vec<u8>) {
        self.console.show(text);
        proof {
            self.shown@ = self.shown@ + text@;
        }
    }
}

/// A console without a clock that nobody talks to.
pub struct Alone;

impl Console for Alone {
    fn now_ms(&mut self) -> (r: u64)
        ensures
            r == 0,
    {
        0
    }

    fn interrupted(&mut self) -> (r: bool)
        ensures
            !r,
    {
        false
    }

    fn rearm(&mut self) {
    }

    fn show(&mut self, text: &Vec<u8>) {
    }
}

impl Alone {
    /// A host that says nothing.
    pub fn new() -> (w: Wire<Alone>)
        ensures
            w.shown() == Seq::<u8>::empty(),
            w.heard() == Seq::<Heard>::empty(),
    {
        Wire::new(Alone)
    }
}

// ---------------------------------------------------------------------------
// What was heard
// ---------------------------------------------------------------------------

/// `b` is `a` and what was heard since.
#[verifier::opaque]
pub open spec fn grew(a: Seq<Heard>, b: Seq<Heard>) -> bool {
    a.len() <= b.len() && b.take(a.len() as int) == a
}

/// An answer that gives a search no reason to end: the hard budget, counted from
/// the start, is not used up, or the controller did not ask for it.
pub open spec fn idle(start: u64, hard: u64, e: Heard) -> bool {
    match e {
        Heard::Time(t) => 0 < hard && t - start < hard,
        Heard::Halt(h) => !h,
        Heard::Rearmed => false,
    }
}

/// `b` is `a` and answers that gave a search no reason to end.
#[verifier::opaque]
pub open spec fn undisturbed(start: u64, hard: u64, a: Seq<Heard>, b: Seq<Heard>) -> bool {
    &&& grew(a, b)
    &&& forall|i: int| a.len() <= i < b.len() ==> idle(start, hard, #[trigger] b[i])
}

pub broadcast proof fn lemma_grew_nowhere(a: Seq<Heard>)
    ensures
        #[trigger] grew(a, a),
{
    reveal(grew);
    assert(a.take(a.len() as int) =~= a);
}

pub broadcast proof fn lemma_grew_on(a: Seq<Heard>, b: Seq<Heard>, c: Seq<Heard>)
    requires
        #[trigger] grew(a, b),
        #[trigger] grew(b, c),
    ensures
        grew(a, c),
{
    reveal(grew);
    assert(c.take(a.len() as int) =~= c.take(b.len() as int).take(a.len() as int));
}

pub broadcast proof fn lemma_undisturbed_nowhere(start: u64, hard: u64, a: Seq<Heard>)
    ensures
        #[trigger] undisturbed(start, hard, a, a),
{
    lemma_grew_nowhere(a);
    reveal(undisturbed);
}

pub broadcast proof fn lemma_undisturbed_on(
    start: u64,
    hard: u64,
    a: Seq<Heard>,
    b: Seq<Heard>,
    c: Seq<Heard>,
)
    requires
        #[trigger] grew(a, b),
        #[trigger] grew(b, c),
    ensures
        #[trigger] undisturbed(start, hard, a, c) == (undisturbed(start, hard, a, b)
            && undisturbed(start, hard, b, c)),
{
    lemma_grew_on(a, b, c);
    reveal(undisturbed);
    reveal(grew);
    assert forall|i: int| 0 <= i < b.len() implies b[i] == c[i] by {
        assert(c.take(b.len() as int)[i] == c[i]);
    }
    if undisturbed(start, hard, a, c) {
        assert forall|i: int| a.len() <= i < b.len() implies idle(start, hard, #[trigger] b[i]) by {
            assert(b[i] == c[i]);
        }
    }
    if undisturbed(start, hard, a, b) && undisturbed(start, hard, b, c) {
        assert forall|i: int| a.len() <= i < c.len() implies idle(start, hard, #[trigger] c[i]) by {
            if i < b.len() {
                assert(b[i] == c[i]);
            }
        }
    }
}

/// One more answer.
pub proof fn lemma_one_more(start: u64, hard: u64, a: Seq<Heard>, e: Heard)
    ensures
        grew(a, a.push(e)),
        undisturbed(start, hard, a, a.push(e)) == idle(start, hard, e),
{
    reveal(undisturbed);
    reveal(grew);
    let b = a.push(e);
    assert(b.take(a.len() as int) =~= a);
    assert(b[a.len() as int] == e);
}

pub broadcast group group_heard {
    lemma_grew_nowhere,
    lemma_grew_on,
    lemma_undisturbed_nowhere,
    lemma_undisturbed_on,
}

} // verus!
