//! Reading orders: what the words of a command ask for.

use vstd::prelude::*;
use vstd::string::*;
use crate::mind::Limits;
use crate::text;
use crate::text::{parse_u64, same, to_i32, Tokens};

verus! {

/// What a set of limits says.
#[verifier::ext_equal]
pub struct Bounds {
    pub depth: int,
    pub nodes: int,
    pub movetime: int,
    pub time: Seq<u64>,
    pub inc: Seq<u64>,
    pub movestogo: int,
    pub infinite: bool,
}

impl Limits {
    pub open spec fn view(&self) -> Bounds {
        Bounds {
            depth: self.depth as int,
            nodes: self.nodes as int,
            movetime: self.movetime as int,
            time: self.time@,
            inc: self.inc@,
            movestogo: self.movestogo as int,
            infinite: self.infinite,
        }
    }
}

/// No limit but the greatest depth.
pub open spec fn unlimited() -> Bounds {
    Bounds {
        depth: 100,
        nodes: u64::MAX as int,
        movetime: 0,
        time: seq![0u64, 0u64],
        inc: seq![0u64, 0u64],
        movestogo: 0,
        infinite: false,
    }
}

/// The number that the word after the first spells, or `other` if there is none.
pub open spec fn argument(ws: Seq<Seq<u8>>, other: int) -> int {
    if ws.len() > 1 {
        text::number_in(ws[1])
    } else {
        other
    }
}

/// The limits and the perft depth of a `go` command, read word by word.
pub open spec fn go_order(b: Bounds, perft: int, ws: Seq<Seq<u8>>) -> (Bounds, int)
    decreases ws.len(),
{
    if ws.len() == 0 {
        (b, perft)
    } else {
        let w = ws[0];
        let rest = ws.skip(
            if ws.len() > 1 {
                2
            } else {
                1
            },
        );
        if w == "depth".spec_bytes() {
            go_order(Bounds { depth: text::low_i32(argument(ws, 1)), ..b }, perft, rest)
        } else if w == "nodes".spec_bytes() {
            go_order(Bounds { nodes: argument(ws, 0), ..b }, perft, rest)
        } else if w == "movetime".spec_bytes() {
            go_order(Bounds { movetime: argument(ws, 0), ..b }, perft, rest)
        } else if w == "wtime".spec_bytes() {
            go_order(Bounds { time: b.time.update(0, argument(ws, 0) as u64), ..b }, perft, rest)
        } else if w == "btime".spec_bytes() {
            go_order(Bounds { time: b.time.update(1, argument(ws, 0) as u64), ..b }, perft, rest)
        } else if w == "winc".spec_bytes() {
            go_order(Bounds { inc: b.inc.update(0, argument(ws, 0) as u64), ..b }, perft, rest)
        } else if w == "binc".spec_bytes() {
            go_order(Bounds { inc: b.inc.update(1, argument(ws, 0) as u64), ..b }, perft, rest)
        } else if w == "movestogo".spec_bytes() {
            go_order(Bounds { movestogo: argument(ws, 0), ..b }, perft, rest)
        } else if w == "perft".spec_bytes() {
            go_order(b, text::low_i32(argument(ws, 1)), rest)
        } else if w == "infinite".spec_bytes() {
            go_order(Bounds { infinite: true, ..b }, perft, ws.skip(1))
        } else {
            go_order(b, perft, ws.skip(1))
        }
    }
}

/// The number that the next word spells, or `other` if there is none.
pub(crate) fn number(t: &mut Tokens, other: u64) -> (r: u64)
    requires
        old(t).wf(),
    ensures
        final(t).wf(),
        old(t)@.len() == 0 ==> r == other && final(t)@.len() == 0,
        old(t)@.len() > 0 ==> r == text::number_in(old(t)@[0]) && final(t)@ == old(t)@.skip(1),
        final(t).s == old(t).s,
{
    match t.next() {
        Some(w) => parse_u64(w),
        None => other,
    }
}

/// Read the words of a `go` command.
pub fn parse_go(t: &mut Tokens) -> (r: (Limits, i32))
    requires
        old(t).wf(),
    ensures
        (r.0@, r.1 as int) == go_order(unlimited(), 0, old(t)@),
{
    let mut l = Limits::new();
    let mut perft: i32 = 0;
    let ghost goal = go_order(unlimited(), 0, t@);
    proof {
        assert(l@ =~= unlimited());
    }
    loop
        invariant
            t.wf(),
            goal == go_order(l@, perft as int, t@),
        ensures
            goal == (l@, perft as int),
        decreases t@.len(),
    {
        let ghost ws = t@;
        let ghost b = l@;
        let w = match t.next() {
            Some(w) => w,
            None => {
                break;
            },
        };
        proof {
            assert(ws.len() > 1 ==> ws.skip(1).skip(1) =~= ws.skip(2));
            assert(ws.len() > 1 ==> ws.skip(1)[0] == ws[1]);
            assert(ws.len() == 1 ==> ws.skip(1).len() == 0);
        }
        if same(w, "depth".as_bytes()) {
            l.depth = to_i32(number(t, 1));
        } else if same(w, "nodes".as_bytes()) {
            l.nodes = number(t, 0);
        } else if same(w, "movetime".as_bytes()) {
            l.movetime = number(t, 0);
        } else if same(w, "wtime".as_bytes()) {
            l.time[0] = number(t, 0);
        } else if same(w, "btime".as_bytes()) {
            l.time[1] = number(t, 0);
        } else if same(w, "winc".as_bytes()) {
            l.inc[0] = number(t, 0);
        } else if same(w, "binc".as_bytes()) {
            l.inc[1] = number(t, 0);
        } else if same(w, "movestogo".as_bytes()) {
            l.movestogo = number(t, 0);
        } else if same(w, "perft".as_bytes()) {
            perft = to_i32(number(t, 1));
        } else if same(w, "infinite".as_bytes()) {
            l.infinite = true;
        }
    }
    (l, perft)
}

/// The name and the value of a `setoption` command, read word by word.
pub open spec fn option_order(name: Seq<u8>, val: int, ws: Seq<Seq<u8>>) -> (Seq<u8>, int)
    decreases ws.len(),
{
    if ws.len() == 0 {
        (name, val)
    } else {
        let rest = ws.skip(
            if ws.len() > 1 {
                2
            } else {
                1
            },
        );
        if ws[0] == "name".spec_bytes() {
            option_order(
                if ws.len() > 1 {
                    ws[1]
                } else {
                    Seq::empty()
                },
                val,
                rest,
            )
        } else if ws[0] == "value".spec_bytes() {
            option_order(name, argument(ws, 0), rest)
        } else {
            option_order(name, val, ws.skip(1))
        }
    }
}

/// Read the words of a `setoption` command.
pub fn parse_option<'a>(t: &mut Tokens<'a>) -> (r: (Option<&'a [u8]>, u64))
    requires
        old(t).wf(),
    ensures
        ({
            let (name, val) = option_order(Seq::empty(), 0, old(t)@);
            &&& r.1 == val
            &&& match r.0 {
                Some(n) => n@ == name,
                None => name.len() == 0,
            }
        }),
{
    let mut name: Option<&'a [u8]> = None;
    let mut val: u64 = 0;
    let ghost goal = option_order(Seq::empty(), 0, t@);
    let ghost mut n: Seq<u8> = Seq::empty();
    loop
        invariant
            t.wf(),
            match name {
                Some(x) => x@ == n,
                None => n.len() == 0,
            },
            goal == option_order(n, val as int, t@),
        ensures
            match name {
                Some(x) => x@ == n,
                None => n.len() == 0,
            },
            goal == (n, val as int),
        decreases t@.len(),
    {
        let ghost ws = t@;
        let w = match t.next() {
            Some(w) => w,
            None => {
                break;
            },
        };
        proof {
            assert(ws.len() > 1 ==> ws.skip(1).skip(1) =~= ws.skip(2));
            assert(ws.len() > 1 ==> ws.skip(1)[0] == ws[1]);
            assert(ws.len() == 1 ==> ws.skip(1).len() == 0);
        }
        if same(w, "name".as_bytes()) {
            name = t.next();
            proof {
                n = if ws.len() > 1 {
                    ws[1]
                } else {
                    Seq::empty()
                };
            }
        } else if same(w, "value".as_bytes()) {
            val = number(t, 0);
        }
    }
    (name, val)
}

/// `w` added to the fields of a FEN, which has room for so much and no more.
pub open spec fn joined(fen: Seq<u8>, w: Seq<u8>) -> Seq<u8> {
    let f = if 0 < fen.len() < 128 {
        fen.push(32)
    } else {
        fen
    };
    let room = 128 - f.len();
    f + if w.len() <= room {
        w
    } else {
        w.take(room)
    }
}

/// The next `n` fields of a FEN at most, up to the word `moves`, and the words
/// after them.
pub open spec fn fen_fields(fen: Seq<u8>, n: nat, ws: Seq<Seq<u8>>) -> (Seq<u8>, Seq<Seq<u8>>)
    decreases n,
{
    if n == 0 || ws.len() == 0 || ws[0] == "moves".spec_bytes() {
        (fen, ws)
    } else {
        fen_fields(joined(fen, ws[0]), (n - 1) as nat, ws.skip(1))
    }
}

/// Add a field to a FEN.
fn join(fen: &mut Vec<u8>, w: &[u8])
    requires
        old(fen)@.len() <= 128,
    ensures
        final(fen)@ == joined(old(fen)@, w@),
        final(fen)@.len() <= 128,
{
    if fen.len() > 0 && fen.len() < 128 {
        fen.push(32);
    }
    let ghost f = fen@;
    let room = 128 - fen.len();
    let n = if w.len() <= room {
        w.len()
    } else {
        room
    };
    let mut i: usize = 0;
    while i < n
        invariant
            i <= n <= w@.len(),
            f.len() + n <= 128,
            fen@ == f + w@.take(i as int),
        decreases n - i,
    {
        fen.push(w[i]);
        proof {
            assert(w@.take(i + 1) =~= w@.take(i as int).push(w@[i as int]));
            assert(fen@ =~= f + w@.take(i + 1));
        }
        i = i + 1;
    }
    proof {
        assert(w@.len() <= room ==> w@.take(n as int) =~= w@);
    }
}

/// Read the fields of a FEN.
pub fn parse_fen(t: &mut Tokens) -> (fen: Vec<u8>)
    requires
        old(t).wf(),
    ensures
        final(t).wf(),
        (fen@, final(t)@) == fen_fields(Seq::empty(), 6, old(t)@),
        fen@.len() <= 128,
{
    let mut fen: Vec<u8> = Vec::new();
    let ghost goal = fen_fields(Seq::empty(), 6, t@);
    let mut k: usize = 0;
    while k < 6
        invariant
            k <= 6,
            t.wf(),
            fen@.len() <= 128,
            goal == fen_fields(fen@, (6 - k) as nat, t@),
            goal == fen_fields(Seq::empty(), 6, old(t)@),
        decreases 6 - k,
    {
        let save = t.i;
        match t.next() {
            None => {
                t.i = save;
                return fen;
            },
            Some(w) => {
                if same(w, "moves".as_bytes()) {
                    t.i = save;
                    return fen;
                }
                join(&mut fen, w);
            },
        }
        k = k + 1;
    }
    fen
}

} // verus!
