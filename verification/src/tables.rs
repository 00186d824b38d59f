//! The constant tables every other module reads.

use vstd::prelude::*;
use crate::bb;
use crate::bb::Attacks;
use crate::zobrist;
use crate::zobrist::Zobrist;

verus! {

/// Attack tables and Zobrist keys. Built once by `init` and read-only after.
pub struct Tables {
    pub(crate) bb: Attacks,
    pub(crate) zob: Zobrist,
}

impl Tables {
    /// Every key is the one its feature has.
    #[verifier::type_invariant]
    pub closed spec fn keyed(self) -> bool {
        self.zob.wf()
    }

    pub closed spec fn attack_tables(&self) -> Attacks {
        self.bb
    }

    /// The attack tables alone.
    pub fn attacks(&self) -> (r: &Attacks)
        ensures
            *r == self.attack_tables(),
    {
        &self.bb
    }

    #[inline(always)]
    pub fn psq(&self, c: usize, p: usize, sq: usize) -> (r: u64)
        requires
            c < 2,
            p < 6,
            sq < 64,
        ensures
            r == zobrist::zpsq(c * 6 + p, sq as int),
    {
        proof {
            use_type_invariant(self);
        }
        assert(self.zob.psq@[c as int]@[p as int]@[sq as int] == zobrist::zpsq(
            c * 6 + p,
            sq as int,
        ));
        self.zob.psq[c][p][sq]
    }

    #[inline(always)]
    pub fn castle_key(&self, castle: u8) -> (r: u64)
        requires
            castle < 16,
        ensures
            r == zobrist::zcastle(castle as int),
    {
        proof {
            use_type_invariant(self);
        }
        self.zob.castle[castle as usize]
    }

    #[inline(always)]
    pub fn ep_key(&self, file: usize) -> (r: u64)
        requires
            file < 8,
        ensures
            r == zobrist::zep(file as int),
    {
        proof {
            use_type_invariant(self);
        }
        self.zob.ep[file]
    }

    #[inline(always)]
    pub fn side_key(&self) -> (r: u64)
        ensures
            r == zobrist::zside(),
    {
        proof {
            use_type_invariant(self);
        }
        self.zob.side
    }
}

/// One-time table construction. Magic bitboards and Zobrist keys have to exist
/// before anything touches them.
pub fn init() -> (t: Tables)
    ensures
        t.keyed(),
        t.attack_tables().filled(),
{
    Tables { bb: bb::init(), zob: zobrist::init_zobrist() }
}

} // verus!
