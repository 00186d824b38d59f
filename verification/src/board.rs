//! Showing a board.

use vstd::prelude::*;
use vstd::string::*;
use crate::bits;
use crate::host::Host;
use crate::fen::LETTERS;
use crate::io;
use crate::io::Out;
use crate::pos::Position;

verus! {

broadcast use crate::io::group_carried;

/// What stands on a square: a letter, or a space.
pub open spec fn square_char(p: Position, s: int) -> u8 {
    let pt = p.mailbox@[s];
    if pt < 6 {
        LETTERS@[(if bits::mem(p.color@[1], s) {
            6int
        } else {
            0
        }) + pt]
    } else {
        32
    }
}

/// The line between two ranks.
pub open spec fn rule_text() -> Seq<u8> {
    " +---+---+---+---+---+---+---+---+".spec_bytes().push(10)
}

/// The first `n` squares of rank `r`.
pub open spec fn squares_text(p: Position, r: int, n: nat) -> Seq<u8>
    decreases n,
{
    if n == 0 {
        Seq::empty()
    } else {
        (squares_text(p, r, (n - 1) as nat) + " | ".spec_bytes()).push(
            square_char(p, r * 8 + n - 1),
        )
    }
}

pub open spec fn rank_text(p: Position, r: int) -> Seq<u8> {
    rule_text() + (squares_text(p, r, 8) + " | ".spec_bytes() + io::digits((r + 1) as nat)).push(10)
}

/// The top `n` ranks.
pub open spec fn ranks_text(p: Position, n: nat) -> Seq<u8>
    decreases n,
{
    if n == 0 {
        Seq::empty()
    } else {
        ranks_text(p, (n - 1) as nat) + rank_text(p, 8 - n)
    }
}

pub open spec fn board_text(p: Position) -> Seq<u8> {
    ranks_text(p, 8) + rule_text() + "   a   b   c   d   e   f   g   h".spec_bytes().push(10) + (
    "key ".spec_bytes() + io::digits(p.key as nat)).push(10)
}

fn print_rank<H: Host>(pos: &Position, r: usize, out: &mut Out, host: &mut H)
    requires
        r < 8,
    ensures
        final(host).heard() == old(host).heard(),
        io::carried(
            old(out).said@,
            final(out).said@,
            old(host).shown(),
            final(host).shown(),
        ),
        final(out)@ == old(out)@ + rank_text(*pos, r as int),
{
    let ghost o = out@;
    out.say(" +---+---+---+---+---+---+---+---+");
    out.nl(host);
    let ghost o1 = out@;
    proof {
        assert(o1 =~= o + rule_text());
    }
    let mut f: usize = 0;
    while f < 8
        invariant
            io::carried(old(out).said@, out.said@, old(host).shown(), host.shown()),
            r < 8,
            f <= 8,
            out@ == o1 + squares_text(*pos, r as int, f as nat),
        decreases 8 - f,
    {
        let sq = r * 8 + f;
        let p = pos.piece_at(sq);
        out.say(" | ");
        let ch = if p < 6 {
            LETTERS[pos.color_at(sq) * 6 + p as usize]
        } else {
            32
        };
        out.c(ch);
        proof {
            let x = squares_text(*pos, r as int, f as nat);
            let y = " | ".spec_bytes();
            assert((o1 + x + y).push(ch) =~= o1 + (x + y).push(ch));
        }
        f = f + 1;
    }
    out.say(" | ");
    out.u(r as u64 + 1);
    out.nl(host);
    proof {
        let x = squares_text(*pos, r as int, 8);
        let (y, z) = (" | ".spec_bytes(), io::digits((r + 1) as nat));
        assert((o1 + x + y + z).push(10) =~= o1 + (x + y + z).push(10));
        let w = (x + y + z).push(10);
        assert(o + rule_text() + w =~= o + (rule_text() + w));
    }
}

pub fn print_board<H: Host>(pos: &Position, out: &mut Out, host: &mut H)
    ensures
        final(host).heard() == old(host).heard(),
        io::carried(
            old(out).said@,
            final(out).said@,
            old(host).shown(),
            final(host).shown(),
        ),
        final(out)@ == old(out)@ + board_text(*pos),
        final(out).buf@.len() == 0,
{
    let ghost o = out@;
    let mut n: usize = 0;
    proof {
        assert(o + ranks_text(*pos, 0) =~= o);
    }
    while n < 8
        invariant
            io::carried(old(out).said@, out.said@, old(host).shown(), host.shown()),
            host.heard() == old(host).heard(),
            n <= 8,
            out@ == o + ranks_text(*pos, n as nat),
        decreases 8 - n,
    {
        print_rank(pos, 7 - n, out, host);
        proof {
            let x = ranks_text(*pos, n as nat);
            let y = rank_text(*pos, 7 - n);
            assert(o + x + y =~= o + (x + y));
        }
        n = n + 1;
    }
    out.say(" +---+---+---+---+---+---+---+---+");
    out.nl(host);
    let ghost x = ranks_text(*pos, 8);
    proof {
        let a = " +---+---+---+---+---+---+---+---+".spec_bytes();
        assert((o + x + a).push(10) =~= o + (x + rule_text()));
    }
    out.say("   a   b   c   d   e   f   g   h");
    out.nl(host);
    let ghost y = x + rule_text();
    proof {
        let a = "   a   b   c   d   e   f   g   h".spec_bytes();
        assert((o + y + a).push(10) =~= o + (y + a.push(10)));
    }
    let ghost z = y + "   a   b   c   d   e   f   g   h".spec_bytes().push(10);
    out.say("key ");
    out.u(pos.key);
    out.nl(host);
    proof {
        let (a, b) = ("key ".spec_bytes(), io::digits(pos.key as nat));
        assert((o + z + a + b).push(10) =~= o + (z + (a + b).push(10)));
    }
}

} // verus!
