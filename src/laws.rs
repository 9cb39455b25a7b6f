//! Properties of the reward allocation, proved over the contracts' models.
use vstd::prelude::*;
use crate::funds::{FundSetting, Funds, ProposalRewardSlots, round_fits};
use crate::ledger::{
    AdvisorReviewRow, Ledger, amounts_nonneg, keys_distinct, ledger_of, ledger_sum,
    lemma_ledger_of, lemma_sum_nonneg, lemma_sum_update, total_weight,
};
use crate::lottery::{draw_step, lemma_sum_zeroed, lottery_of, pick};
use crate::payout::{
    lemma_merge, lemma_scaled_sum, lottery_draws, payouts_of, reward_of, rewards_upto, scaled,
};
use crate::rewards::{
    ProposalFundsState, ProposalReviews, base_of, bonus_of, filled_of, funds_of, is_approved,
    lemma_base_of, lemma_exact, pool_of,
};

verus! {

proof fn lemma_pick_in_range(l: Ledger, r: int)
    requires
        amounts_nonneg(l),
        0 <= r < ledger_sum(l),
    ensures
        0 <= pick(l, r) < l.len(),
        l[pick(l, r)].1 > 0,
    decreases l.len(),
{
    if l.len() > 0 {
        lemma_sum_nonneg(l.drop_last());
        if r < ledger_sum(l.drop_last()) {
            lemma_pick_in_range(l.drop_last(), r);
        }
    }
}

proof fn lemma_lottery_sums(l: Ledger, ds: Seq<u64>)
    requires
        amounts_nonneg(l),
        ds.len() < ledger_sum(l),
    ensures
        ledger_sum(lottery_of(l, ds).1) == ds.len(),
        ledger_sum(lottery_of(l, ds).0) == ledger_sum(l) - ds.len(),
        amounts_nonneg(lottery_of(l, ds).0),
        amounts_nonneg(lottery_of(l, ds).1),
        lottery_of(l, ds).0.len() == l.len(),
        lottery_of(l, ds).1.len() == l.len(),
    decreases ds.len(),
{
    if ds.len() == 0 {
        lemma_sum_zeroed(l);
    } else {
        lemma_lottery_sums(l, ds.drop_last());
        let (left, won) = lottery_of(l, ds.drop_last());
        let r = ds.last() as int % ledger_sum(left);
        lemma_pick_in_range(left, r);
        let j = pick(left, r);
        lemma_sum_update(left, j, (left[j].0, left[j].1 - 1));
        lemma_sum_update(won, j, (won[j].0, won[j].1 + 1));
        assert(lottery_of(l, ds) == draw_step((left, won), ds.last()));
    }
}

/// When every proposal reaches its target exactly and none is approved, the
/// advisors receive together exactly the base rewards of all proposals.
pub proof fn law_conservation(
    ps: Seq<ProposalReviews>,
    setting: FundSetting,
    slots: ProposalRewardSlots,
    seed: u64,
)
    requires
        slots.filled_slots > 0,
        ps.len() > 0,
        setting.wf(),
        round_fits(setting.total.value(), ps.len() as int, slots.filled_slots as int, 0),
        forall|i: int| 0 <= i < ps.len() ==> filled_of(#[trigger] ps[i], slots) == slots.filled_slots,
    ensures
        ledger_sum(rewards_upto(ps, seq![], setting, slots, seed, ps.len())) == ps.len() * base_of(
            ps,
            seq![],
            setting,
            slots,
        ),
{
    let base = base_of(ps, seq![], setting, slots);
    let n = ps.len() as int;
    let t = slots.filled_slots as int;
    let tot = setting.total.value();
    let sc = crate::rewards::scale_in(ps, seq![], slots);
    lemma_base_of(ps, seq![], setting, slots);
    assert(base <= u128::MAX) by (nonlinear_arith)
        requires
            base == tot * setting.proposal_ratio * (n * t * t * 1),
            sc == 100 * n * n * t * t * 1,
            setting.proposal_ratio <= 100,
            3 * n * (tot + 1) * sc <= u128::MAX,
            n >= 1,
            t >= 1,
            tot >= 0,
    ;
    lemma_pool_zero(ps, base, slots);
    lemma_conservation_upto(ps, setting, slots, seed, ps.len());
}

proof fn lemma_pool_zero(ps: Seq<ProposalReviews>, base: int, slots: ProposalRewardSlots)
    requires
        forall|i: int| 0 <= i < ps.len() ==> filled_of(#[trigger] ps[i], slots) == slots.filled_slots,
    ensures
        pool_of(ps, base, slots) == 0,
    decreases ps.len(),
{
    if ps.len() > 0 {
        assert(filled_of(ps[ps.len() - 1], slots) == slots.filled_slots);
        lemma_pool_zero(ps.drop_last(), base, slots);
    }
}

proof fn lemma_conservation_upto(
    ps: Seq<ProposalReviews>,
    setting: FundSetting,
    slots: ProposalRewardSlots,
    seed: u64,
    k: nat,
)
    requires
        slots.filled_slots > 0,
        ps.len() > 0,
        k <= ps.len(),
        0 <= base_of(ps, seq![], setting, slots) <= u128::MAX,
        pool_of(ps, base_of(ps, seq![], setting, slots), slots) == 0,
        forall|i: int| 0 <= i < ps.len() ==> filled_of(#[trigger] ps[i], slots) == slots.filled_slots,
        base_of(ps, seq![], setting, slots) % (slots.filled_slots as int) == 0,
    ensures
        ledger_sum(rewards_upto(ps, seq![], setting, slots, seed, k)) == k * base_of(
            ps,
            seq![],
            setting,
            slots,
        ),
        keys_distinct(rewards_upto(ps, seq![], setting, slots, seed, k)),
        amounts_nonneg(rewards_upto(ps, seq![], setting, slots, seed, k)),
    decreases k,
{
    let base = base_of(ps, seq![], setting, slots);
    let t = slots.filled_slots as int;
    if k > 0 {
        lemma_conservation_upto(ps, setting, slots, seed, (k - 1) as nat);
        let i = k - 1;
        let rows = ps[i].reviews@;
        let reward = reward_of(ps, i, seq![], setting, slots);
        assert(filled_of(ps[i], slots) == t);
        assert(0int / (ps.len() as int) == 0) by (nonlinear_arith)
            requires
                ps.len() > 0,
        ;
        assert(funds_of(ps, i, seq![], setting, slots) == base);
        assert(reward.funds.value() == base);
        assert(reward.state == ProposalFundsState::Exact);
        let per = base / t;
        lemma_ledger_of(rows, slots);
        lemma_scaled_sum(ledger_of(rows, slots), per);
        assert(t * per == base) by (nonlinear_arith)
            requires
                per == base / t,
                base % t == 0,
                t > 0,
        ;
        assert(per >= 0) by (nonlinear_arith)
            requires
                per == base / t,
                base >= 0,
                t > 0,
        ;
        let p = payouts_of(reward, rows, slots, crate::lottery::spec_draw(seed, i as nat));
        assert(p == scaled(ledger_of(rows, slots), per));
        assert(amounts_nonneg(p)) by {
            assert forall|m: int| 0 <= m < p.len() implies #[trigger] p[m].1 >= 0 by {
                assert(ledger_of(rows, slots)[m].1 >= 0);
                assert(ledger_of(rows, slots)[m].1 * per >= 0) by (nonlinear_arith)
                    requires
                        ledger_of(rows, slots)[m].1 >= 0,
                        per >= 0,
                ;
            }
        }
        lemma_merge(rewards_upto(ps, seq![], setting, slots, seed, (k - 1) as nat), p);
        assert((k - 1) * base + base == k * base) by (nonlinear_arith);
    }
}

/// An Unfilled proposal with `f` of `t` tickets and base reward `b` gives back
/// exactly `b * f / t` and keeps exactly `b - b * f / t`, to which only an
/// approval adds the bonus.
pub proof fn law_reclaim(
    ps: Seq<ProposalReviews>,
    i: int,
    approved: Seq<String>,
    setting: FundSetting,
    slots: ProposalRewardSlots,
)
    requires
        0 <= i < ps.len(),
        filled_of(ps[i], slots) < slots.filled_slots,
    ensures
        ({
            let b = base_of(ps, approved, setting, slots);
            let f = filled_of(ps[i], slots);
            let t = slots.filled_slots as int;
            let bonus = if is_approved(approved, ps[i].id@) {
                bonus_of(ps, approved, setting, slots)
            } else {
                0
            };
            &&& reward_of(ps, i, approved, setting, slots).state == ProposalFundsState::Unfilled(
                Funds { units: (b * f / t) as u128 },
            )
            &&& (b * f / t) * t == b * f
            &&& funds_of(ps, i, approved, setting, slots) - bonus == b - b * f / t
            &&& (funds_of(ps, i, approved, setting, slots) - bonus) * t == b * (t - f)
        }),
{
    let b = base_of(ps, approved, setting, slots);
    let f = filled_of(ps[i], slots);
    let t = slots.filled_slots as int;
    crate::rewards::lemma_total_weight_nonneg(ps[i].reviews@, slots);
    lemma_base_of(ps, approved, setting, slots);
    let q = b / t;
    vstd::arithmetic::div_mod::lemma_fundamental_div_mod(b, t);
    assert(b == q * t && q >= 0) by (nonlinear_arith)
        requires
            b == t * (b / t) + b % t,
            b % t == 0,
            q == b / t,
            b >= 0,
            t > 0,
    ;
    assert(b * f == (q * f) * t && q * f >= 0) by (nonlinear_arith)
        requires
            b == q * t,
            q >= 0,
            f >= 0,
    ;
    lemma_exact(q * f, t);
    assert((b - q * f) * t == b * (t - f)) by (nonlinear_arith)
        requires
            b == q * t,
    ;
}

/// On a proposal above its target, the payouts add up to exactly the target
/// number of tickets, each worth the funds divided by the target.
pub proof fn law_lottery_cardinality(
    reward: crate::rewards::ProposalReward,
    rows: Seq<AdvisorReviewRow>,
    slots: ProposalRewardSlots,
    seed: u64,
)
    requires
        reward.state == ProposalFundsState::OverLoaded,
        0 < slots.filled_slots < total_weight(rows, slots),
        reward.funds.value() % (slots.filled_slots as int) == 0,
    ensures
        ledger_sum(
            lottery_of(ledger_of(rows, slots), lottery_draws(seed, slots.filled_slots as nat)).1,
        ) == slots.filled_slots,
        ledger_sum(payouts_of(reward, rows, slots, seed)) == reward.funds.value(),
{
    let t = slots.filled_slots as int;
    lemma_ledger_of(rows, slots);
    let won = lottery_of(ledger_of(rows, slots), lottery_draws(seed, t as nat)).1;
    lemma_lottery_sums(ledger_of(rows, slots), lottery_draws(seed, t as nat));
    lemma_scaled_sum(won, reward.funds.value() / t);
    lemma_whole_share(reward.funds.value(), t);
}

/// A whole share: `x / t` times `t` is `x` where `t` divides `x`.
proof fn lemma_whole_share(x: int, t: int)
    requires
        t > 0,
        x >= 0,
        x % t == 0,
    ensures
        (x / t) * t == x,
        x / t >= 0,
        x > 0 ==> x / t > 0,
{
    vstd::arithmetic::div_mod::lemma_fundamental_div_mod(x, t);
    assert((x / t) * t == x) by (nonlinear_arith)
        requires
            x == t * (x / t) + x % t,
            x % t == 0,
    ;
    assert(x / t >= 0 && (x > 0 ==> x / t > 0)) by (nonlinear_arith)
        requires
            (x / t) * t == x,
            x >= 0,
            t > 0,
    ;
}

/// On a proposal at or below its target, an advisor holding more tickets than
/// another is paid at least as much, and strictly more when the proposal has
/// funds.
pub proof fn law_ticket_monotonicity(
    reward: crate::rewards::ProposalReward,
    rows: Seq<AdvisorReviewRow>,
    slots: ProposalRewardSlots,
    seed: u64,
    a: int,
    b: int,
)
    requires
        reward.state != ProposalFundsState::OverLoaded,
        slots.filled_slots > 0,
        0 <= a < ledger_of(rows, slots).len(),
        0 <= b < ledger_of(rows, slots).len(),
        ledger_of(rows, slots)[a].1 < ledger_of(rows, slots)[b].1,
        reward.funds.value() % (slots.filled_slots as int) == 0,
    ensures
        payouts_of(reward, rows, slots, seed)[a].1 <= payouts_of(reward, rows, slots, seed)[b].1,
        reward.funds.value() > 0 ==> payouts_of(
            reward,
            rows,
            slots,
            seed,
        )[a].1 < payouts_of(reward, rows, slots, seed)[b].1,
{
    let t = slots.filled_slots as int;
    let per = reward.funds.value() / t;
    let l = ledger_of(rows, slots);
    lemma_whole_share(reward.funds.value(), t);
    assert(per >= 0) by (nonlinear_arith)
        requires
            per == reward.funds.value() / t,
            reward.funds.value() >= 0,
            t > 0,
    ;
    assert(l[a].1 * per <= l[b].1 * per) by (nonlinear_arith)
        requires
            l[a].1 < l[b].1,
            per >= 0,
    ;
    if per > 0 {
        assert(l[a].1 * per < l[b].1 * per) by (nonlinear_arith)
            requires
                l[a].1 < l[b].1,
                per > 0,
        ;
    }
}

/// Of two proposals with as many tickets, one approved and one not, the
/// approved one has exactly the bonus more, and both are in the same state.
pub proof fn law_bonus_additivity(
    ps: Seq<ProposalReviews>,
    i: int,
    j: int,
    approved: Seq<String>,
    setting: FundSetting,
    slots: ProposalRewardSlots,
)
    requires
        0 <= i < ps.len(),
        0 <= j < ps.len(),
        filled_of(ps[i], slots) == filled_of(ps[j], slots),
        is_approved(approved, ps[i].id@),
        !is_approved(approved, ps[j].id@),
    ensures
        funds_of(ps, i, approved, setting, slots) == funds_of(ps, j, approved, setting, slots)
            + bonus_of(ps, approved, setting, slots),
        reward_of(ps, i, approved, setting, slots).state == reward_of(
            ps,
            j,
            approved,
            setting,
            slots,
        ).state,
{
}

} // verus!
