//! Exact monetary amounts and the funding configuration.
use vstd::prelude::*;

verus! {

/// An exact amount of money, counted in units of a fixed scale. A round counts
/// all its amounts at one scale (see `scale_of`), chosen so that every share it
/// computes is a whole number of units: no operation rounds.
#[derive(Clone, Copy, Debug, PartialEq, Eq, Structural)]
pub struct Funds {
    pub units: u128,
}

impl Funds {
    pub open spec fn value(self) -> int {
        self.units as int
    }

    pub fn zero() -> (r: Funds)
        ensures
            r.value() == 0,
    {
        Funds { units: 0 }
    }

    pub fn from_units(units: u128) -> (r: Funds)
        ensures
            r.value() == units,
    {
        Funds { units }
    }

    pub fn add(self, other: Funds) -> (r: Funds)
        requires
            self.value() + other.value() <= u128::MAX,
        ensures
            r.value() == self.value() + other.value(),
    {
        Funds { units: self.units + other.units }
    }

    pub fn sub(self, other: Funds) -> (r: Funds)
        requires
            other.value() <= self.value(),
        ensures
            r.value() == self.value() - other.value(),
    {
        Funds { units: self.units - other.units }
    }

    /// The amount times a count.
    pub fn times(self, count: u64) -> (r: Funds)
        requires
            self.value() * count <= u128::MAX,
        ensures
            r.value() == self.value() * count,
    {
        Funds { units: self.units * (count as u128) }
    }

    /// The amount split into `count` equal shares, which the scale makes exact.
    pub fn split(self, count: u64) -> (r: Funds)
        requires
            count > 0,
            self.value() % (count as int) == 0,
        ensures
            r.value() * count == self.value(),
            r.value() == self.value() / (count as int),
            r.value() <= self.value(),
    {
        let r = Funds { units: self.units / (count as u128) };
        proof {
            let x = self.value();
            let c = count as int;
            vstd::arithmetic::div_mod::lemma_fundamental_div_mod(x, c);
            assert((x / c) * c == x) by (nonlinear_arith)
                requires
                    x == c * (x / c) + x % c,
                    x % c == 0,
            ;
        }
        r
    }
}

/// Number of approvals that a bonus is divided by: at least one.
pub open spec fn approvals_divisor(a: int) -> int {
    if a == 0 {
        1
    } else {
        a
    }
}

/// Scale of a round of `n` proposals, a target of `t` tickets and `a` approved
/// proposals: amounts of the round are counted in units of `1 / scale` of the
/// pool's unit. It makes every share of the round exact: a percentage of the
/// pool, split over the proposals, twice, and over the approved ones, then over
/// the tickets of a proposal, twice.
pub open spec fn scale_of(n: int, t: int, a: int) -> int {
    100 * n * n * t * t * approvals_divisor(a)
}

/// All amounts of such a round fit in 128 bits: `n` proposals can each hold
/// three times the pool, with room for a pool of one more unit.
pub open spec fn round_fits(total: int, n: int, t: int, a: int) -> bool {
    3 * n * (total + 1) * scale_of(n, t, a) <= u128::MAX
}

/// How a funding pool is divided: the pool, in whole units, and the
/// percentages of it that go to the base rewards of all proposals and to the
/// bonuses of approved ones.
#[derive(Clone, Copy, Debug, PartialEq, Eq, Structural)]
pub struct FundSetting {
    pub proposal_ratio: u8,
    pub bonus_ratio: u8,
    pub total: Funds,
}

impl FundSetting {
    pub open spec fn wf(self) -> bool {
        self.proposal_ratio <= 100 && self.bonus_ratio <= 100
    }

    /// Base reward of each of `n` proposals, at scale `scale`.
    pub open spec fn spec_funds_per_proposal(self, n: int, scale: int) -> int {
        self.total.value() * self.proposal_ratio * scale / (100 * n)
    }

    /// Bonus of each of `a` approved proposals, at scale `scale`: nothing where
    /// none is approved.
    pub open spec fn spec_bonus_funds_per_proposal(self, a: int, scale: int) -> int {
        if a == 0 {
            0
        } else {
            self.total.value() * self.bonus_ratio * scale / (100 * a)
        }
    }
}

/// The scale of a round, as `scale_of` gives it.
pub fn round_scale(n: u128, t: u128, a: u128) -> (r: u128)
    requires
        n > 0,
        t > 0,
        scale_of(n as int, t as int, a as int) <= u128::MAX,
    ensures
        r == scale_of(n as int, t as int, a as int),
{
    let d: u128 = if a == 0 {
        1
    } else {
        a
    };
    let ghost s = scale_of(n as int, t as int, a as int);
    proof {
        assert(100 * n <= s) by (nonlinear_arith)
            requires
                s == 100 * n * n * t * t * d,
                n >= 1,
                t >= 1,
                d >= 1,
        ;
        assert(100 * n * n <= s) by (nonlinear_arith)
            requires
                s == 100 * n * n * t * t * d,
                n >= 1,
                t >= 1,
                d >= 1,
        ;
        assert(100 * n * n * t <= s) by (nonlinear_arith)
            requires
                s == 100 * n * n * t * t * d,
                n >= 1,
                t >= 1,
                d >= 1,
        ;
        assert(100 * n * n * t * t <= s) by (nonlinear_arith)
            requires
                s == 100 * n * n * t * t * d,
                d >= 1,
                100 * n * n * t * t >= 0,
        ;
    }
    100 * n * n * t * t * d
}

/// Ticket weights of the review scores, and the number of tickets that a fully
/// reviewed proposal reaches.
#[derive(Clone, Copy, Debug, PartialEq, Eq, Structural)]
pub struct ProposalRewardSlots {
    pub excellent_slots: u64,
    pub good_slots: u64,
    pub filled_slots: u64,
}

} // verus!
