//! What each advisor earns on a proposal, and in the whole round.
use vstd::prelude::*;
use crate::funds::{FundSetting, Funds, ProposalRewardSlots, round_fits};
use crate::ledger::{
    AdvisorReviewRow, Ledger, TicketsDistribution, add_entry, amounts_nonneg, index_of,
    keys_distinct, ledger_of, ledger_sum, lemma_add_entry, lemma_entry_le_sum, lemma_first_index,
    lemma_index_of, lemma_ledger_of, lemma_sum_nonneg, load_tickets_from_reviews, total_weight,
};
use crate::lottery::{draws_from_seed, lottery_distribution, lottery_of, spec_draw};
use crate::rewards::{
    ProposalFundsState, ProposalReward, ProposalReviews, base_of, calculate_funds_per_proposal,
    classify, filled_of, funds_of, ids_distinct, scale_in, strings_distinct,
    weights_fit,
};

verus! {

/// Rewards of one advisor.
#[derive(Clone, Debug)]
pub struct AdvisorReward {
    pub advisor: String,
    pub rewards: Funds,
}

/// Rewards per advisor, each advisor once, in the order of first appearance.
#[derive(Clone, Debug)]
pub struct CaRewards {
    pub entries: Vec<AdvisorReward>,
}

impl View for CaRewards {
    type V = Ledger;

    open spec fn view(&self) -> Ledger {
        self.entries@.map_values(|e: AdvisorReward| (e.advisor@, e.rewards.value()))
    }
}

/// Errors of the configuration that stop a computation.
#[derive(Clone, Copy, Debug, PartialEq, Eq, Structural)]
pub enum RewardsError {
    /// The target number of tickets is zero.
    ZeroTargetSlots,
    /// There is no proposal to share the funds among.
    EmptyProposalSet,
}

/// Each amount times `per`.
pub open spec fn scaled(l: Ledger, per: int) -> Ledger {
    l.map_values(|e: (Seq<char>, int)| (e.0, e.1 * per))
}

/// The numbers that the lottery of a proposal draws from `seed`.
pub open spec fn lottery_draws(seed: u64, count: nat) -> Seq<u64> {
    Seq::new(count, |i: int| spec_draw(seed, i as nat))
}

/// Whether a state agrees with the number of tickets of its proposal.
pub open spec fn state_fits(state: ProposalFundsState, filled: int, target: int) -> bool {
    match state {
        ProposalFundsState::OverLoaded => filled > target,
        ProposalFundsState::Exact => filled == target,
        ProposalFundsState::Unfilled(_) => filled < target,
    }
}

/// Rewards per advisor on one proposal. Each ticket is worth the proposal's
/// funds divided by the target, which the round's scale makes exact. Below or
/// at the target every ticket is paid; above it only the tickets that the
/// lottery draws.
pub open spec fn payouts_of(
    reward: ProposalReward,
    rows: Seq<AdvisorReviewRow>,
    slots: ProposalRewardSlots,
    seed: u64,
) -> Ledger {
    let t = slots.filled_slots as int;
    let per = reward.funds.value() / t;
    let tickets = ledger_of(rows, slots);
    match reward.state {
        ProposalFundsState::OverLoaded => scaled(
            lottery_of(tickets, lottery_draws(seed, t as nat)).1,
            per,
        ),
        _ => scaled(tickets, per),
    }
}

/// `acc` with every amount of `p` added to its advisor.
pub open spec fn merge(acc: Ledger, p: Ledger) -> Ledger
    decreases p.len(),
{
    if p.len() == 0 {
        acc
    } else {
        add_entry(merge(acc, p.drop_last()), p.last().0, p.last().1)
    }
}

/// The reward of proposal `i` of `ps`.
pub open spec fn reward_of(
    ps: Seq<ProposalReviews>,
    i: int,
    approved: Seq<String>,
    setting: FundSetting,
    slots: ProposalRewardSlots,
) -> ProposalReward {
    ProposalReward {
        state: classify(
            filled_of(ps[i], slots),
            base_of(ps, approved, setting, slots),
            slots.filled_slots as int,
        ),
        funds: Funds { units: funds_of(ps, i, approved, setting, slots) as u128 },
    }
}

/// Rewards per advisor over the first `k` proposals; the lottery of proposal
/// `i` draws from the `i`-th number of `seed`.
pub open spec fn rewards_upto(
    ps: Seq<ProposalReviews>,
    approved: Seq<String>,
    setting: FundSetting,
    slots: ProposalRewardSlots,
    seed: u64,
    k: nat,
) -> Ledger
    decreases k,
{
    if k == 0 {
        seq![]
    } else {
        merge(
            rewards_upto(ps, approved, setting, slots, seed, (k - 1) as nat),
            payouts_of(
                reward_of(ps, k - 1, approved, setting, slots),
                ps[k - 1].reviews@,
                slots,
                spec_draw(seed, (k - 1) as nat),
            ),
        )
    }
}

pub proof fn lemma_scaled_sum(l: Ledger, per: int)
    ensures
        ledger_sum(scaled(l, per)) == ledger_sum(l) * per,
    decreases l.len(),
{
    if l.len() > 0 {
        lemma_scaled_sum(l.drop_last(), per);
        assert(scaled(l, per).drop_last() =~= scaled(l.drop_last(), per));
        assert((ledger_sum(l.drop_last()) + l.last().1) * per == ledger_sum(l.drop_last()) * per
            + l.last().1 * per) by (nonlinear_arith);
    }
}

pub proof fn lemma_merge(acc: Ledger, p: Ledger)
    requires
        keys_distinct(acc),
        amounts_nonneg(acc),
        amounts_nonneg(p),
    ensures
        keys_distinct(merge(acc, p)),
        amounts_nonneg(merge(acc, p)),
        ledger_sum(merge(acc, p)) == ledger_sum(acc) + ledger_sum(p),
    decreases p.len(),
{
    if p.len() > 0 {
        lemma_merge(acc, p.drop_last());
        lemma_add_entry(merge(acc, p.drop_last()), p.last().0, p.last().1);
    }
}

impl CaRewards {
    pub fn new() -> (r: CaRewards)
        ensures
            r@ == Seq::<(Seq<char>, int)>::empty(),
    {
        CaRewards { entries: Vec::new() }
    }

    pub fn len(&self) -> (r: usize)
        ensures
            r == self@.len(),
    {
        self.entries.len()
    }

    /// Rewards of `advisor`, if present.
    pub fn get(&self, advisor: &String) -> (r: Option<Funds>)
        ensures
            match r {
                Some(f) => index_of(self@, advisor@) >= 0 && f.value() == self@[index_of(
                    self@,
                    advisor@,
                )].1,
                None => index_of(self@, advisor@) == -1,
            },
    {
        match self.find(advisor) {
            Some(i) => Some(self.entries[i].rewards),
            None => None,
        }
    }

    /// Position of `advisor`, if present.
    pub fn find(&self, advisor: &String) -> (r: Option<usize>)
        ensures
            match r {
                Some(i) => i == index_of(self@, advisor@) && i < self@.len(),
                None => index_of(self@, advisor@) == -1,
            },
    {
        proof {
            lemma_index_of(self@, advisor@);
        }
        let mut i: usize = 0;
        while i < self.entries.len()
            invariant
                0 <= i <= self.entries.len(),
                forall|k: int| 0 <= k < i ==> self@[k].0 != advisor@,
            decreases self.entries.len() - i,
        {
            if self.entries[i].advisor == *advisor {
                proof {
                    lemma_first_index(self@, advisor@, i as int);
                }
                return Some(i);
            }
            i = i + 1;
        }
        None
    }

    /// Adds `amount` to the rewards of `advisor`.
    pub fn add(&mut self, advisor: &String, amount: Funds)
        requires
            index_of(old(self)@, advisor@) >= 0 ==> old(self)@[index_of(old(self)@, advisor@)].1
                + amount.value() <= u128::MAX,
        ensures
            final(self)@ == add_entry(old(self)@, advisor@, amount.value()),
    {
        proof {
            lemma_index_of(self@, advisor@);
        }
        match self.find(advisor) {
            Some(i) => {
                let held = self.entries[i].rewards;
                let e = AdvisorReward { advisor: advisor.clone(), rewards: held.add(amount) };
                self.entries.set(i, e);
                assert(self@ =~= add_entry(old(self)@, advisor@, amount.value()));
            },
            None => {
                self.entries.push(AdvisorReward { advisor: advisor.clone(), rewards: amount });
                assert(self@ =~= add_entry(old(self)@, advisor@, amount.value()));
            },
        }
    }

    /// Adds every amount of `other` to its advisor.
    pub fn merge_from(&mut self, other: &CaRewards)
        requires
            keys_distinct(old(self)@),
            ledger_sum(old(self)@) + ledger_sum(other@) <= u128::MAX,
        ensures
            final(self)@ == merge(old(self)@, other@),
    {
        let ghost start = self@;
        let mut i: usize = 0;
        proof {
            assert(other@.subrange(0, 0) =~= Seq::<(Seq<char>, int)>::empty());
            lemma_nonneg(start);
            lemma_nonneg(other@);
        }
        while i < other.entries.len()
            invariant
                0 <= i <= other@.len(),
                keys_distinct(start),
                amounts_nonneg(start),
                amounts_nonneg(other@),
                ledger_sum(start) + ledger_sum(other@) <= u128::MAX,
                self@ == merge(start, other@.subrange(0, i as int)),
            decreases other@.len() - i,
        {
            let ghost pre = other@.subrange(0, i as int);
            proof {
                assert(other@.subrange(0, i + 1).drop_last() =~= pre);
                lemma_merge(start, pre);
                crate::lottery::lemma_prefix_sum_le(other@, i as int);
                lemma_entry_le_sum(other@, i as int);
                assert(ledger_sum(other@.subrange(0, i + 1)) == ledger_sum(pre) + other@[i as int].1);
                crate::lottery::lemma_prefix_sum_le(other@, i + 1);
                lemma_index_of(self@, other@[i as int].0);
                let k = index_of(self@, other@[i as int].0);
                if k >= 0 {
                    lemma_entry_le_sum(self@, k);
                }
            }
            self.add(&other.entries[i].advisor, other.entries[i].rewards);
            i = i + 1;
        }
        assert(other@.subrange(0, i as int) =~= other@);
    }
}

pub proof fn lemma_nonneg(l: Ledger)
    requires
        forall|k: int| 0 <= k < l.len() ==> (#[trigger] l[k]).1 >= 0,
    ensures
        amounts_nonneg(l),
{
}

/// Pays every ticket the funds divided by the target, exactly: the funds are
/// at a scale that the target divides.
pub fn distribute_rewards(funds: Funds, cas: &TicketsDistribution, rewards_slots: &ProposalRewardSlots) -> (r:
    CaRewards)
    requires
        rewards_slots.filled_slots > 0,
        funds.value() % (rewards_slots.filled_slots as int) == 0,
        ledger_sum(cas@) <= rewards_slots.filled_slots,
    ensures
        r@ == scaled(cas@, funds.value() / (rewards_slots.filled_slots as int)),
        ledger_sum(r@) * rewards_slots.filled_slots == funds.value() * ledger_sum(cas@),
        ledger_sum(cas@) == rewards_slots.filled_slots ==> ledger_sum(r@) == funds.value(),
        ledger_sum(r@) <= funds.value(),
{
    let t = rewards_slots.filled_slots;
    let per = funds.split(t);
    let ghost p = per.value();
    proof {
        lemma_nonneg(cas@);
    }
    let mut out = CaRewards::new();
    let mut i: usize = 0;
    while i < cas.entries.len()
        invariant
            0 <= i <= cas@.len(),
            p == per.value(),
            p * t == funds.value(),
            amounts_nonneg(cas@),
            ledger_sum(cas@) <= t,
            out@ == scaled(cas@.subrange(0, i as int), p),
        decreases cas@.len() - i,
    {
        let tickets = cas.entries[i].tickets;
        proof {
            lemma_entry_le_sum(cas@, i as int);
            assert(p * tickets <= funds.value()) by (nonlinear_arith)
                requires
                    tickets <= t,
                    p >= 0,
                    p * t == funds.value(),
            ;
            assert(p * tickets == tickets * p) by (nonlinear_arith);
        }
        let ghost pre = out@;
        out.entries.push(AdvisorReward { advisor: cas.entries[i].advisor.clone(), rewards: per.times(tickets) });
        i = i + 1;
        assert(out@ =~= pre.push((cas@[i - 1].0, cas@[i - 1].1 * p)));
        assert(out@ =~= scaled(cas@.subrange(0, i as int), p));
    }
    assert(cas@.subrange(0, i as int) =~= cas@);
    proof {
        lemma_scaled_sum(cas@, p);
        lemma_sum_nonneg(cas@);
        let k = ledger_sum(cas@);
        assert(k * p <= t * p && (k * p) * t == funds.value() * k) by (nonlinear_arith)
            requires
                k <= t,
                p >= 0,
                p * t == funds.value(),
        ;
    }
    out
}

/// Draws the target number of tickets from `cas` with numbers from `seed`, and
/// pays each ticket drawn the funds divided by the target, exactly.
pub fn lottery_rewards(
    funds: Funds,
    cas: &TicketsDistribution,
    rewards_slots: &ProposalRewardSlots,
    seed: u64,
) -> (r: CaRewards)
    requires
        0 < rewards_slots.filled_slots < ledger_sum(cas@),
        ledger_sum(cas@) <= u64::MAX,
        funds.value() % (rewards_slots.filled_slots as int) == 0,
    ensures
        r@ == scaled(
            lottery_of(cas@, lottery_draws(seed, rewards_slots.filled_slots as nat)).1,
            funds.value() / (rewards_slots.filled_slots as int),
        ),
        ledger_sum(r@) == funds.value(),
{
    let draws = draws_from_seed(seed, rewards_slots.filled_slots);
    assert(draws@ =~= lottery_draws(seed, rewards_slots.filled_slots as nat));
    let won = lottery_distribution(cas, &draws);
    distribute_rewards(funds, &won, rewards_slots)
}

/// Rewards per advisor on one proposal, by its state: proportional to tickets
/// at or below the target, by lottery above it.
pub fn calculate_ca_rewards_for_proposal(
    proposal_reward: &ProposalReward,
    proposal_reviews: &Vec<AdvisorReviewRow>,
    rewards_slots: &ProposalRewardSlots,
    seed: u64,
) -> (r: CaRewards)
    requires
        rewards_slots.filled_slots > 0,
        total_weight(proposal_reviews@, *rewards_slots) <= u64::MAX,
        state_fits(
            proposal_reward.state,
            total_weight(proposal_reviews@, *rewards_slots),
            rewards_slots.filled_slots as int,
        ),
        proposal_reward.funds.value() % (rewards_slots.filled_slots as int) == 0,
    ensures
        r@ == payouts_of(*proposal_reward, proposal_reviews@, *rewards_slots, seed),
        ledger_sum(r@) <= proposal_reward.funds.value(),
        !(proposal_reward.state is Unfilled) ==> ledger_sum(r@) == proposal_reward.funds.value(),
        ledger_sum(r@) * rewards_slots.filled_slots == proposal_reward.funds.value() * if proposal_reward.state is Unfilled {
            total_weight(proposal_reviews@, *rewards_slots)
        } else {
            rewards_slots.filled_slots as int
        },
{
    let tickets = load_tickets_from_reviews(proposal_reviews, rewards_slots);
    proof {
        lemma_ledger_of(proposal_reviews@, *rewards_slots);
    }
    match proposal_reward.state {
        ProposalFundsState::OverLoaded => {
            let r = lottery_rewards(proposal_reward.funds, &tickets, rewards_slots, seed);
            proof {
                assert(ledger_sum(r@) * rewards_slots.filled_slots == proposal_reward.funds.value()
                    * rewards_slots.filled_slots) by (nonlinear_arith)
                    requires
                        ledger_sum(r@) == proposal_reward.funds.value(),
                ;
            }
            r
        },
        _ => distribute_rewards(proposal_reward.funds, &tickets, rewards_slots),
    }
}

/// Rewards of every advisor over all proposals: the sum of what each proposal
/// pays the advisor, exactly, in units of `1 / scale_of(n, t, a)` of the
/// pool's unit for `n` proposals, a target of `t` tickets and `a` approved
/// proposals. The lottery of the `i`-th proposal draws from the `i`-th
/// number that `seed` determines, so the same seed gives the same rewards.
pub fn calculate_ca_rewards(
    proposal_reviews: &Vec<ProposalReviews>,
    approved_proposals: &Vec<String>,
    funding: &FundSetting,
    rewards_slots: &ProposalRewardSlots,
    seed: u64,
) -> (r: Result<CaRewards, RewardsError>)
    requires
        funding.wf(),
        ids_distinct(proposal_reviews@),
        strings_distinct(approved_proposals@),
        weights_fit(proposal_reviews@, *rewards_slots),
        round_fits(
            funding.total.value(),
            proposal_reviews@.len() as int,
            rewards_slots.filled_slots as int,
            approved_proposals@.len() as int,
        ),
    ensures
        match r {
            Ok(c) => rewards_slots.filled_slots > 0 && proposal_reviews@.len() > 0 && keys_distinct(
                c@,
            ) && c@ == rewards_upto(
                proposal_reviews@,
                approved_proposals@,
                *funding,
                *rewards_slots,
                seed,
                proposal_reviews@.len(),
            ),
            Err(e) => if rewards_slots.filled_slots == 0 {
                e == RewardsError::ZeroTargetSlots
            } else {
                proposal_reviews@.len() == 0 && e == RewardsError::EmptyProposalSet
            },
        },
{
    if rewards_slots.filled_slots == 0 {
        return Err(RewardsError::ZeroTargetSlots);
    }
    let n = proposal_reviews.len();
    if n == 0 {
        return Err(RewardsError::EmptyProposalSet);
    }
    let ghost ps = proposal_reviews@;
    let rewards = calculate_funds_per_proposal(
        proposal_reviews,
        approved_proposals,
        funding,
        rewards_slots,
    );
    let seeds = draws_from_seed(seed, n as u64);
    let ghost bound = 3 * (funding.total.value() * scale_in(ps, approved_proposals@, *rewards_slots));
    proof {
        let sc = scale_in(ps, approved_proposals@, *rewards_slots);
        let tot = funding.total.value();
        assert(n * bound <= u128::MAX) by (nonlinear_arith)
            requires
                bound == 3 * (tot * sc),
                3 * n * (tot + 1) * sc <= u128::MAX,
                sc >= 0,
                tot >= 0,
                n >= 0,
        ;
    }
    let mut acc = CaRewards::new();
    let mut i: usize = 0;
    while i < n
        invariant
            0 <= i <= n,
            n == ps.len(),
            n * bound <= u128::MAX,
            bound == 3 * (funding.total.value() * scale_in(ps, approved_proposals@, *rewards_slots)),
            ps == proposal_reviews@,
            rewards_slots.filled_slots > 0,
            funding.wf(),
            weights_fit(ps, *rewards_slots),
            rewards@.len() == n,
            seeds@.len() == n,
            forall|k: int| 0 <= k < n ==> seeds@[k] == spec_draw(seed, k as nat),
            forall|k: int|
                0 <= k < n ==> (#[trigger] rewards@[k]).state == classify(
                    filled_of(ps[k], *rewards_slots),
                    base_of(ps, approved_proposals@, *funding, *rewards_slots),
                    rewards_slots.filled_slots as int,
                ) && rewards@[k].funds.value() == funds_of(
                    ps,
                    k,
                    approved_proposals@,
                    *funding,
                    *rewards_slots,
                ),
            forall|k: int|
                0 <= k < n ==> (#[trigger] rewards@[k]).funds.value() % (
                rewards_slots.filled_slots as int) == 0 && rewards@[k].funds.value() <= bound,
            acc@ == rewards_upto(ps, approved_proposals@, *funding, *rewards_slots, seed, i as nat),
            keys_distinct(acc@),
            amounts_nonneg(acc@),
            ledger_sum(acc@) <= i * bound,
        decreases n - i,
    {
        let reward = rewards[i];
        proof {
            assert(reward == reward_of(ps, i as int, approved_proposals@, *funding, *rewards_slots));
            assert(filled_of(ps[i as int], *rewards_slots) <= u64::MAX);
        }
        let p = calculate_ca_rewards_for_proposal(
            &reward,
            &proposal_reviews[i].reviews,
            rewards_slots,
            seeds[i],
        );
        proof {
            lemma_nonneg(p@);
            assert((i + 1) * bound == i * bound + bound) by (nonlinear_arith);
            assert((i + 1) * bound <= n * bound) by (nonlinear_arith)
                requires
                    i < n,
                    bound >= 0,
            ;
            lemma_merge(acc@, p@);
        }
        acc.merge_from(&p);
        i = i + 1;
    }
    Ok(acc)
}

} // verus!
