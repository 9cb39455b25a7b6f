//! Funds of each proposal, and the rewards of the advisors who reviewed them.
use vstd::prelude::*;
use crate::funds::{FundSetting, Funds, ProposalRewardSlots, round_fits, round_scale, scale_of};
use crate::ledger::{AdvisorReviewRow, filled_slots, total_weight};

verus! {

/// How the tickets of a proposal compare with its target.
#[derive(Clone, Copy, Debug, PartialEq, Eq, Structural)]
pub enum ProposalFundsState {
    /// Exactly the target number of tickets.
    Exact,
    /// Fewer tickets than the target; holds the amount that goes back to the pool.
    Unfilled(Funds),
    /// More tickets than the target: paid by lottery.
    OverLoaded,
}

/// The state of a proposal and the funds it finally distributes.
#[derive(Clone, Copy, Debug, PartialEq, Eq, Structural)]
pub struct ProposalReward {
    pub state: ProposalFundsState,
    pub funds: Funds,
}

/// A proposal and its reviews.
#[derive(Clone, Debug)]
pub struct ProposalReviews {
    pub id: String,
    pub reviews: Vec<AdvisorReviewRow>,
}

/// The amount a proposal with `filled` of `target` tickets gives back to the pool.
pub open spec fn reclaimed(base: int, filled: int, target: int) -> int {
    if filled < target {
        base * filled / target
    } else {
        0
    }
}

pub open spec fn classify(filled: int, base: int, target: int) -> ProposalFundsState {
    if filled < target {
        ProposalFundsState::Unfilled(Funds { units: reclaimed(base, filled, target) as u128 })
    } else if filled == target {
        ProposalFundsState::Exact
    } else {
        ProposalFundsState::OverLoaded
    }
}

/// `(x * d) / d` is `x`, with no remainder.
pub proof fn lemma_exact(x: int, d: int)
    requires
        x >= 0,
        d > 0,
    ensures
        (x * d) / d == x,
        (x * d) % d == 0,
{
    vstd::arithmetic::div_mod::lemma_div_by_multiple(x, d);
    vstd::arithmetic::div_mod::lemma_mod_multiples_basic(x, d);
}

/// Sorts a proposal by its tickets: fewer than the target is Unfilled, with the
/// share `filled / target` of its base reward, exactly, as the amount given
/// back; as many is Exact; more is OverLoaded. The base reward is at a scale
/// that the target divides.
pub fn proposal_rewards_state(
    proposal_reviews: &Vec<AdvisorReviewRow>,
    proposal_fund: Funds,
    rewards_slots: &ProposalRewardSlots,
) -> (r: ProposalFundsState)
    requires
        rewards_slots.filled_slots > 0,
        proposal_fund.value() % (rewards_slots.filled_slots as int) == 0,
        total_weight(proposal_reviews@, *rewards_slots) <= u64::MAX,
    ensures
        r == classify(
            total_weight(proposal_reviews@, *rewards_slots),
            proposal_fund.value(),
            rewards_slots.filled_slots as int,
        ),
        r matches ProposalFundsState::Unfilled(back) ==> back.value() * rewards_slots.filled_slots
            == proposal_fund.value() * total_weight(proposal_reviews@, *rewards_slots),
{
    let filled = filled_slots(proposal_reviews, rewards_slots);
    let t = rewards_slots.filled_slots;
    if filled < t {
        let per = proposal_fund.split(t);
        proof {
            assert(per.value() * filled <= per.value() * t) by (nonlinear_arith)
                requires
                    filled < t,
                    per.value() >= 0,
            ;
            lemma_exact(per.value() * filled, t as int);
            assert(proposal_fund.value() * filled == (per.value() * filled) * t) by (nonlinear_arith)
                requires
                    per.value() * t == proposal_fund.value(),
            ;
        }
        ProposalFundsState::Unfilled(per.times(filled))
    } else if filled == t {
        ProposalFundsState::Exact
    } else {
        ProposalFundsState::OverLoaded
    }
}

pub open spec fn filled_of(p: ProposalReviews, slots: ProposalRewardSlots) -> int {
    total_weight(p.reviews@, slots)
}

/// Scale of the round of the proposals `ps`.
pub open spec fn scale_in(
    ps: Seq<ProposalReviews>,
    approved: Seq<String>,
    slots: ProposalRewardSlots,
) -> int {
    scale_of(ps.len() as int, slots.filled_slots as int, approved.len() as int)
}

/// Base reward of each proposal, at the round's scale.
pub open spec fn base_of(
    ps: Seq<ProposalReviews>,
    approved: Seq<String>,
    setting: FundSetting,
    slots: ProposalRewardSlots,
) -> int {
    setting.spec_funds_per_proposal(ps.len() as int, scale_in(ps, approved, slots))
}

/// Sum of what the proposals give back, each with base reward `base`.
pub open spec fn pool_of(ps: Seq<ProposalReviews>, base: int, slots: ProposalRewardSlots) -> int
    decreases ps.len(),
{
    if ps.len() == 0 {
        0
    } else {
        pool_of(ps.drop_last(), base, slots) + reclaimed(
            base,
            filled_of(ps.last(), slots),
            slots.filled_slots as int,
        )
    }
}

/// What each proposal that is not Unfilled receives on top of its base reward.
pub open spec fn supplement_of(
    ps: Seq<ProposalReviews>,
    approved: Seq<String>,
    setting: FundSetting,
    slots: ProposalRewardSlots,
) -> int {
    pool_of(ps, base_of(ps, approved, setting, slots), slots) / (ps.len() as int)
}

pub open spec fn is_approved(approved: Seq<String>, id: Seq<char>) -> bool {
    exists|k: int| 0 <= k < approved.len() && approved[k]@ == id
}

/// Bonus of each approved proposal, at the round's scale.
pub open spec fn bonus_of(
    ps: Seq<ProposalReviews>,
    approved: Seq<String>,
    setting: FundSetting,
    slots: ProposalRewardSlots,
) -> int {
    setting.spec_bonus_funds_per_proposal(approved.len() as int, scale_in(ps, approved, slots))
}

/// Funds of proposal `i`: an Unfilled one keeps its base reward less what it
/// gives back, any other gets its base reward and the supplement; an approved
/// one gets the bonus on top.
pub open spec fn funds_of(
    ps: Seq<ProposalReviews>,
    i: int,
    approved: Seq<String>,
    setting: FundSetting,
    slots: ProposalRewardSlots,
) -> int {
    let base = base_of(ps, approved, setting, slots);
    let filled = filled_of(ps[i], slots);
    let t = slots.filled_slots as int;
    let own = if filled < t {
        base - reclaimed(base, filled, t)
    } else {
        base + supplement_of(ps, approved, setting, slots)
    };
    own + if is_approved(approved, ps[i].id@) {
        bonus_of(ps, approved, setting, slots)
    } else {
        0
    }
}

pub open spec fn ids_distinct(ps: Seq<ProposalReviews>) -> bool {
    forall|i: int, j: int| 0 <= i < j < ps.len() ==> ps[i].id@ != ps[j].id@
}

pub open spec fn strings_distinct(s: Seq<String>) -> bool {
    forall|i: int, j: int| 0 <= i < j < s.len() ==> s[i]@ != s[j]@
}

/// The tickets of every proposal can be counted in 64 bits.
pub open spec fn weights_fit(ps: Seq<ProposalReviews>, slots: ProposalRewardSlots) -> bool {
    forall|i: int| 0 <= i < ps.len() ==> filled_of(#[trigger] ps[i], slots) <= u64::MAX
}

/// The base reward is `total * proposal_ratio * n * t * t * d` units, `d` the
/// approvals divisor: a whole multiple of the target.
pub proof fn lemma_base_of(
    ps: Seq<ProposalReviews>,
    approved: Seq<String>,
    setting: FundSetting,
    slots: ProposalRewardSlots,
)
    requires
        ps.len() > 0,
        slots.filled_slots > 0,
    ensures
        base_of(ps, approved, setting, slots) == setting.total.value() * setting.proposal_ratio * (
        ps.len() * slots.filled_slots * slots.filled_slots * crate::funds::approvals_divisor(
            approved.len() as int,
        )),
        base_of(ps, approved, setting, slots) % (slots.filled_slots as int) == 0,
        base_of(ps, approved, setting, slots) >= 0,
{
    let n = ps.len() as int;
    let t = slots.filled_slots as int;
    let d = crate::funds::approvals_divisor(approved.len() as int);
    let x = setting.total.value() * setting.proposal_ratio;
    assert(x >= 0) by (nonlinear_arith)
        requires
            setting.total.value() >= 0,
            setting.proposal_ratio >= 0,
            x == setting.total.value() * setting.proposal_ratio,
    ;
    assert(x * scale_in(ps, approved, slots) == (x * (n * t * t * d)) * (100 * n)) by (nonlinear_arith)
        requires
            scale_in(ps, approved, slots) == 100 * n * n * t * t * d,
    ;
    assert(x * (n * t * t * d) >= 0 && x * (n * t * d) >= 0) by (nonlinear_arith)
        requires
            x >= 0,
            n >= 1,
            t >= 1,
            d >= 1,
    ;
    lemma_exact(x * (n * t * t * d), 100 * n);
    assert(x * (n * t * t * d) == (x * (n * t * d)) * t) by (nonlinear_arith);
    lemma_exact(x * (n * t * d), t);
}

proof fn lemma_reclaimed_bounds(base: int, filled: int, t: int)
    requires
        base >= 0,
        filled >= 0,
        t > 0,
    ensures
        0 <= reclaimed(base, filled, t) <= base,
{
    if filled < t {
        assert(base * filled <= base * t) by (nonlinear_arith)
            requires
                base >= 0,
                filled < t,
        ;
        assert(base * filled / t <= base) by (nonlinear_arith)
            requires
                base * filled <= base * t,
                t > 0,
        ;
        assert(base * filled / t >= 0) by (nonlinear_arith)
            requires
                base >= 0,
                filled >= 0,
                t > 0,
        ;
    }
}

proof fn lemma_pool_bound(ps: Seq<ProposalReviews>, base: int, slots: ProposalRewardSlots)
    requires
        base >= 0,
        slots.filled_slots > 0,
    ensures
        0 <= pool_of(ps, base, slots) <= ps.len() * base,
    decreases ps.len(),
{
    if ps.len() > 0 {
        lemma_pool_bound(ps.drop_last(), base, slots);
        lemma_total_weight_nonneg(ps.last().reviews@, slots);
        lemma_reclaimed_bounds(base, filled_of(ps.last(), slots), slots.filled_slots as int);
        assert((ps.len() - 1) * base + base == ps.len() * base) by (nonlinear_arith);
    }
}

pub proof fn lemma_total_weight_nonneg(rows: Seq<AdvisorReviewRow>, slots: ProposalRewardSlots)
    ensures
        total_weight(rows, slots) >= 0,
    decreases rows.len(),
{
    if rows.len() > 0 {
        lemma_total_weight_nonneg(rows.drop_last(), slots);
    }
}

/// Whether `id` is among the approved proposals.
pub fn contains_id(approved: &Vec<String>, id: &String) -> (r: bool)
    ensures
        r == is_approved(approved@, id@),
{
    let mut k: usize = 0;
    while k < approved.len()
        invariant
            0 <= k <= approved@.len(),
            forall|m: int| 0 <= m < k ==> approved@[m]@ != id@,
        decreases approved@.len() - k,
    {
        if approved[k] == *id {
            return true;
        }
        k = k + 1;
    }
    false
}

/// The state and final funds of every proposal, in the order of
/// `proposal_reviews`, at the round's scale. Each proposal's funds split
/// exactly over its target number of tickets.
pub fn calculate_funds_per_proposal(
    proposal_reviews: &Vec<ProposalReviews>,
    approved_proposals: &Vec<String>,
    funding: &FundSetting,
    rewards_slots: &ProposalRewardSlots,
) -> (r: Vec<ProposalReward>)
    requires
        proposal_reviews@.len() > 0,
        rewards_slots.filled_slots > 0,
        funding.wf(),
        ids_distinct(proposal_reviews@),
        strings_distinct(approved_proposals@),
        weights_fit(proposal_reviews@, *rewards_slots),
        round_fits(
            funding.total.value(),
            proposal_reviews@.len() as int,
            rewards_slots.filled_slots as int,
            approved_proposals@.len() as int,
        ),
    ensures
        r@.len() == proposal_reviews@.len(),
        forall|i: int|
            0 <= i < r@.len() ==> (#[trigger] r@[i]).state == classify(
                filled_of(proposal_reviews@[i], *rewards_slots),
                base_of(proposal_reviews@, approved_proposals@, *funding, *rewards_slots),
                rewards_slots.filled_slots as int,
            ) && r@[i].funds.value() == funds_of(
                proposal_reviews@,
                i,
                approved_proposals@,
                *funding,
                *rewards_slots,
            ),
        forall|i: int|
            0 <= i < r@.len() ==> (#[trigger] r@[i]).funds.value() % (
            rewards_slots.filled_slots as int) == 0 && r@[i].funds.value() <= 3 * (funding.total.value()
                * scale_in(proposal_reviews@, approved_proposals@, *rewards_slots)),
{
    let ghost ps = proposal_reviews@;
    let ghost ap = approved_proposals@;
    let n = proposal_reviews.len();
    let a = approved_proposals.len();
    let t = rewards_slots.filled_slots;
    let total = funding.total.units;
    let pr = funding.proposal_ratio as u128;
    let br = funding.bonus_ratio as u128;
    let ghost sc = scale_in(ps, ap, *rewards_slots);
    proof {
        assert(sc <= 3 * n * (total + 1) * sc) by (nonlinear_arith)
            requires
                n >= 1,
                total >= 0,
                sc >= 0,
        ;
        assert(3 * (total * sc) <= 3 * n * (total + 1) * sc) by (nonlinear_arith)
            requires
                n >= 1,
                total >= 0,
                sc >= 0,
        ;
    }
    let scale = round_scale(n as u128, t as u128, a as u128);
    let d: u128 = if a == 0 {
        1
    } else {
        a as u128
    };
    let nn = n as u128;
    let tt = t as u128;
    // every share, per unit of the pool and percent
    let ghost c: int = total * pr * d;
    proof {
        assert(scale == 100 * nn * nn * tt * tt * d);
        assert(nn * tt * d <= scale && nn * nn * tt * tt <= scale && nn * tt * tt * d <= scale)
            by (nonlinear_arith)
            requires
                scale == 100 * nn * nn * tt * tt * d,
                nn >= 1,
                tt >= 1,
                d >= 1,
        ;
        assert(total * pr * (nn * tt * tt * d) <= total * scale) by (nonlinear_arith)
            requires
                scale == 100 * nn * nn * tt * tt * d,
                pr <= 100,
                nn >= 1,
                total >= 0,
                nn * tt * tt * d >= 0,
        ;
        assert(total * br * (nn * nn * tt * tt) <= total * scale) by (nonlinear_arith)
            requires
                scale == 100 * nn * nn * tt * tt * d,
                br <= 100,
                d >= 1,
                total >= 0,
                nn * nn * tt * tt >= 0,
        ;
        assert(total * pr * (nn * tt * d) <= total * pr * (nn * tt * tt * d)) by (nonlinear_arith)
            requires
                tt >= 1,
                total * pr >= 0,
                nn * tt * d >= 0,
        ;
        assert(0 <= total * pr * (nn * tt * d)) by (nonlinear_arith)
            requires
                total * pr >= 0,
                nn * tt * d >= 0,
        ;
        assert(nn * tt * d >= 1 && nn * nn * tt * tt >= 1) by (nonlinear_arith)
            requires
                nn >= 1,
                tt >= 1,
                d >= 1,
        ;
        assert(total * pr <= total * pr * (nn * tt * d)) by (nonlinear_arith)
            requires
                total * pr >= 0,
                nn * tt * d >= 1,
        ;
        assert(total * br <= total * br * (nn * nn * tt * tt)) by (nonlinear_arith)
            requires
                total * br >= 0,
                nn * nn * tt * tt >= 1,
        ;
        assert(total * sc <= u128::MAX);
    }
    proof {
        assert(nn * tt <= nn * tt * d) by (nonlinear_arith)
            requires
                nn * tt >= 0,
                d >= 1,
        ;
        assert(nn * nn <= nn * nn * tt && nn * nn * tt <= nn * nn * tt * tt) by (nonlinear_arith)
            requires
                nn >= 1,
                tt >= 1,
        ;
        assert((total * pr * (nn * tt * d)) * tt == total * pr * (nn * tt * tt * d)) by (nonlinear_arith);
    }
    let per = Funds::from_units(total * pr * (nn * tt * d));
    let base = per.times(t);
    let bonus = if a == 0 {
        Funds::zero()
    } else {
        Funds::from_units(total * br * (nn * nn * tt * tt))
    };
    proof {
        assert(per.value() == nn * tt * c) by (nonlinear_arith)
            requires
                per.value() == total * pr * (nn * tt * d),
                c == total * pr * d,
        ;
        assert(base.value() == total * pr * (nn * tt * tt * d)) by (nonlinear_arith)
            requires
                per.value() == total * pr * (nn * tt * d),
                base.value() == per.value() * tt,
        ;
        assert(total * pr * sc == base.value() * (100 * nn)) by (nonlinear_arith)
            requires
                sc == 100 * nn * nn * tt * tt * d,
                base.value() == total * pr * (nn * tt * tt * d),
        ;
        lemma_exact(base.value(), 100 * nn);
        assert(base.value() == base_of(ps, ap, *funding, *rewards_slots));
        lemma_exact(per.value(), tt as int);
        if a > 0 {
            assert(total * br * sc == bonus.value() * (100 * d)) by (nonlinear_arith)
                requires
                    sc == 100 * nn * nn * tt * tt * d,
                    bonus.value() == total * br * (nn * nn * tt * tt),
            ;
            lemma_exact(bonus.value(), 100 * d);
            assert(bonus.value() == (total * br * (nn * nn * tt)) * tt) by (nonlinear_arith)
                requires
                    bonus.value() == total * br * (nn * nn * tt * tt),
            ;
            lemma_exact(total * br * (nn * nn * tt), tt as int);
        }
        assert(bonus.value() == bonus_of(ps, ap, *funding, *rewards_slots));
        assert(bonus.value() % (tt as int) == 0);
        assert(nn * base.value() <= total * sc) by (nonlinear_arith)
            requires
                sc == 100 * nn * nn * tt * tt * d,
                base.value() == total * pr * (nn * tt * tt * d),
                pr <= 100,
                total >= 0,
                nn >= 1,
                tt >= 1,
                d >= 1,
        ;
    }
    let mut states: Vec<ProposalFundsState> = Vec::new();
    let mut pool = Funds::zero();
    let ghost mut q: int = 0;
    assert((tt * q) * nn == 0) by (nonlinear_arith)
        requires
            q == 0,
    ;
    let mut i: usize = 0;
    while i < n
        invariant
            0 <= i <= n,
            n == ps.len(),
            ps == proposal_reviews@,
            rewards_slots.filled_slots == t,
            t > 0,
            nn == n,
            tt == t,
            base.value() == per.value() * t,
            per.value() == nn * tt * c,
            c >= 0,
            base.value() % (t as int) == 0,
            n * base.value() <= u128::MAX,
            weights_fit(ps, *rewards_slots),
            states@.len() == i,
            forall|k: int|
                0 <= k < i ==> #[trigger] states@[k] == classify(
                    filled_of(ps[k], *rewards_slots),
                    base.value(),
                    t as int,
                ),
            pool.value() == pool_of(ps.subrange(0, i as int), base.value(), *rewards_slots),
            pool.value() == (tt * q) * nn,
            q >= 0,
        decreases n - i,
    {
        let ghost pre = ps.subrange(0, i as int);
        proof {
            assert(ps.subrange(0, i + 1).drop_last() =~= pre);
            lemma_pool_bound(ps.subrange(0, i + 1), base.value(), *rewards_slots);
            assert((i + 1) * base.value() <= n * base.value()) by (nonlinear_arith)
                requires
                    i < n,
                    base.value() >= 0,
            ;
            assert(filled_of(ps[i as int], *rewards_slots) <= u64::MAX);
            lemma_total_weight_nonneg(ps[i as int].reviews@, *rewards_slots);
            lemma_reclaimed_bounds(
                base.value(),
                filled_of(ps[i as int], *rewards_slots),
                t as int,
            );
        }
        let state = proposal_rewards_state(&proposal_reviews[i].reviews, base, rewards_slots);
        match state {
            ProposalFundsState::Unfilled(back) => {
                let ghost f = filled_of(ps[i as int], *rewards_slots);
                proof {
                    assert(back.value() * tt == (per.value() * f) * tt) by (nonlinear_arith)
                        requires
                            back.value() * tt == base.value() * f,
                            base.value() == per.value() * tt,
                    ;
                    assert(back.value() == per.value() * f) by (nonlinear_arith)
                        requires
                            back.value() * tt == (per.value() * f) * tt,
                            tt > 0,
                    ;
                    assert(pool.value() + back.value() == (tt * (q + c * f)) * nn) by (nonlinear_arith)
                        requires
                            pool.value() == (tt * q) * nn,
                            back.value() == per.value() * f,
                            per.value() == nn * tt * c,
                    ;
                    assert(c * f >= 0) by (nonlinear_arith)
                        requires
                            c >= 0,
                            f >= 0,
                    ;
                    q = q + c * f;
                }
                pool = pool.add(back);
            },
            _ => {},
        }
        states.push(state);
        i = i + 1;
    }
    assert(ps.subrange(0, n as int) =~= ps);
    proof {
        lemma_exact(tt * q, nn as int);
    }
    let supplement = pool.split(n as u64);
    proof {
        lemma_pool_bound(ps, base.value(), *rewards_slots);
        assert(supplement.value() == tt * q);
        assert(supplement.value() <= base.value()) by (nonlinear_arith)
            requires
                supplement.value() * nn == pool.value(),
                pool.value() <= nn * base.value(),
                nn >= 1,
        ;
        assert(supplement.value() == q * tt) by (nonlinear_arith)
            requires
                supplement.value() == tt * q,
        ;
    }
    let mut out: Vec<ProposalReward> = Vec::new();
    let mut j: usize = 0;
    while j < n
        invariant
            0 <= j <= n,
            n == ps.len(),
            ps == proposal_reviews@,
            ap == approved_proposals@,
            rewards_slots.filled_slots == t,
            t > 0,
            tt == t,
            states@.len() == n,
            base.value() == base_of(ps, ap, *funding, *rewards_slots),
            base.value() == per.value() * tt,
            per.value() == nn * tt * c,
            nn == n,
            c >= 0,
            base.value() <= total * sc,
            supplement.value() == supplement_of(ps, ap, *funding, *rewards_slots),
            supplement.value() <= base.value(),
            supplement.value() == q * tt,
            q >= 0,
            bonus.value() == bonus_of(ps, ap, *funding, *rewards_slots),
            bonus.value() <= total * sc,
            bonus.value() % (tt as int) == 0,
            3 * (total * sc) <= u128::MAX,
            forall|k: int|
                0 <= k < n ==> #[trigger] states@[k] == classify(
                    filled_of(ps[k], *rewards_slots),
                    base.value(),
                    t as int,
                ),
            out@.len() == j,
            forall|k: int|
                0 <= k < j ==> (#[trigger] out@[k]).state == states@[k] && out@[k].funds.value()
                    == funds_of(ps, k, ap, *funding, *rewards_slots) && out@[k].funds.value() % (
                tt as int) == 0 && out@[k].funds.value() <= 3 * (total * sc),
        decreases n - j,
    {
        let state = states[j];
        let ghost f = filled_of(ps[j as int], *rewards_slots);
        proof {
            lemma_total_weight_nonneg(ps[j as int].reviews@, *rewards_slots);
            lemma_reclaimed_bounds(base.value(), f, t as int);
        }
        let own = match state {
            ProposalFundsState::Unfilled(back) => {
                proof {
                    assert(base.value() * f == (per.value() * f) * tt) by (nonlinear_arith)
                        requires
                            base.value() == per.value() * tt,
                    ;
                    assert(per.value() * f >= 0) by (nonlinear_arith)
                        requires
                            per.value() >= 0,
                            f >= 0,
                    ;
                    lemma_exact(per.value() * f, tt as int);
                    assert(back.value() == per.value() * f);
                    assert(base.value() - back.value() == (per.value() - nn * c * f) * tt)
                        by (nonlinear_arith)
                        requires
                            back.value() == per.value() * f,
                            base.value() == per.value() * tt,
                            per.value() == nn * tt * c,
                    ;
                    assert(per.value() - nn * c * f >= 0) by (nonlinear_arith)
                        requires
                            base.value() - back.value() == (per.value() - nn * c * f) * tt,
                            base.value() - back.value() >= 0,
                            tt > 0,
                    ;
                    lemma_exact(per.value() - nn * c * f, tt as int);
                }
                base.sub(back)
            },
            _ => {
                proof {
                    assert(base.value() + supplement.value() == (per.value() + q) * tt)
                        by (nonlinear_arith)
                        requires
                            supplement.value() == q * tt,
                            base.value() == per.value() * tt,
                    ;
                    assert(per.value() >= 0);
                    lemma_exact(per.value() + q, tt as int);
                }
                base.add(supplement)
            },
        };
        let extra = if contains_id(approved_proposals, &proposal_reviews[j].id) {
            bonus
        } else {
            Funds::zero()
        };
        proof {
            vstd::arithmetic::div_mod::lemma_add_mod_noop(own.value(), extra.value(), tt as int);
        }
        out.push(ProposalReward { state, funds: own.add(extra) });
        j = j + 1;
    }
    out
}

} // verus!
