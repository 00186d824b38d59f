//! Moves. 16 bits: from(6) | to(6) | flag(4).

use vstd::prelude::*;

verus! {

pub const F_QUIET: u16 = 0;

pub const F_DOUBLE: u16 = 1;

pub const F_KCASTLE: u16 = 2;

pub const F_QCASTLE: u16 = 3;

pub const F_CAPTURE: u16 = 4;

pub const F_EP: u16 = 5;

/// +0..3 = N,B,R,Q ; +F_CAPTURE for promo-capture.
pub const F_PROMO: u16 = 8;

#[derive(Clone, Copy, PartialEq, Eq, Structural, Debug)]
pub struct Move(pub u16);

/// The move that leaves `f` for `t` with flag `k`.
pub open spec fn mv(f: int, t: int, k: int) -> Move {
    Move((f + t * 64 + k * 4096) as u16)
}

impl Move {
    /// The null move: no move at all.
    #[inline(always)]
    pub fn null() -> (m: Move)
        ensures
            m == Move(0),
    {
        Move(0)
    }

    pub open spec fn f(self) -> int {
        self.0 as int % 64
    }

    pub open spec fn t(self) -> int {
        (self.0 as int / 64) % 64
    }

    pub open spec fn k(self) -> int {
        self.0 as int / 4096
    }

    /// The capture bit of the flag.
    pub open spec fn cap(self) -> bool {
        (self.k() / 4) % 2 == 1
    }

    /// The promotion bit of the flag.
    pub open spec fn pro(self) -> bool {
        self.k() >= 8
    }

    pub open spec fn is_ep_spec(self) -> bool {
        self.k() == F_EP
    }

    pub open spec fn is_castle_spec(self) -> bool {
        self.k() == F_KCASTLE || self.k() == F_QCASTLE
    }

    /// The piece type a promotion yields: 1..4 = N,B,R,Q.
    pub open spec fn promo_spec(self) -> int {
        self.k() % 4 + 1
    }

    /// What captures or promotes material: every capture, en passant included.
    pub open spec fn noisy(self) -> bool {
        self.cap() || self.is_ep_spec()
    }

    #[inline(always)]
    pub fn new(from: usize, to: usize, flag: u16) -> (m: Move)
        requires
            from < 64,
            to < 64,
            flag < 16,
        ensures
            m == mv(from as int, to as int, flag as int),
            m.f() == from,
            m.t() == to,
            m.k() == flag,
    {
        Move(from as u16 + to as u16 * 64 + flag * 4096)
    }

    #[inline(always)]
    pub fn from(self) -> (r: usize)
        ensures
            r == self.f(),
            r < 64,
    {
        (self.0 % 64) as usize
    }

    #[inline(always)]
    pub fn to(self) -> (r: usize)
        ensures
            r == self.t(),
            r < 64,
    {
        (self.0 / 64 % 64) as usize
    }

    #[inline(always)]
    pub fn flag(self) -> (r: u16)
        ensures
            r == self.k(),
            r < 16,
    {
        self.0 / 4096
    }

    #[inline(always)]
    pub fn is_capture(self) -> (r: bool)
        ensures
            r == self.cap(),
    {
        self.flag() / 4 % 2 == 1
    }

    #[inline(always)]
    pub fn is_promo(self) -> (r: bool)
        ensures
            r == self.pro(),
    {
        self.flag() >= F_PROMO
    }

    #[inline(always)]
    pub fn is_ep(self) -> (r: bool)
        ensures
            r == self.is_ep_spec(),
    {
        self.flag() == F_EP
    }

    #[inline(always)]
    pub fn is_castle(self) -> (r: bool)
        ensures
            r == self.is_castle_spec(),
    {
        self.flag() == F_KCASTLE || self.flag() == F_QCASTLE
    }

    /// Promotion piece type; only meaningful when `is_promo()`.
    #[inline(always)]
    pub fn promo(self) -> (r: usize)
        ensures
            r == self.promo_spec(),
            1 <= r <= 4,
    {
        (self.flag() % 4 + 1) as usize
    }

    #[inline(always)]
    pub fn is_null(self) -> (r: bool)
        ensures
            r == (self == Move(0)),
    {
        self.0 == 0
    }
}

/// Packing and unpacking a move are inverse: the three parts of a packed move
/// are the parts it was packed from, and every move is packed from its parts.
pub proof fn law_move_round_trip(f: int, t: int, k: int, m: Move)
    requires
        0 <= f < 64,
        0 <= t < 64,
        0 <= k < 16,
    ensures
        mv(f, t, k).f() == f,
        mv(f, t, k).t() == t,
        mv(f, t, k).k() == k,
        mv(m.f(), m.t(), m.k()) == m,
        0 <= m.f() < 64,
        0 <= m.t() < 64,
        0 <= m.k() < 16,
{
}

/// A move is known by its parts.
pub broadcast proof fn lemma_mv_parts(f: int, t: int, k: int)
    requires
        0 <= f < 64,
        0 <= t < 64,
        0 <= k < 16,
    ensures
        #![trigger mv(f, t, k)]
        mv(f, t, k).f() == f,
        mv(f, t, k).t() == t,
        mv(f, t, k).k() == k,
{
}

} // verus!
