use catalyst_toolbox::funds::{round_scale, FundSetting, Funds, ProposalRewardSlots};
use catalyst_toolbox::ledger::{load_tickets_from_reviews, AdvisorReviewRow, ReviewScore};
use catalyst_toolbox::lottery::{draws_from_seed, lottery_distribution};
use catalyst_toolbox::payout::{
    calculate_ca_rewards, calculate_ca_rewards_for_proposal, distribute_rewards, lottery_rewards,
    CaRewards, RewardsError,
};
use catalyst_toolbox::rewards::{
    calculate_funds_per_proposal, proposal_rewards_state, ProposalFundsState, ProposalReviews,
};

fn slots(target: u64) -> ProposalRewardSlots {
    ProposalRewardSlots { excellent_slots: 3, good_slots: 2, filled_slots: target }
}

fn setting(total: u128, bonus_ratio: u8) -> FundSetting {
    FundSetting { proposal_ratio: 100, bonus_ratio, total: Funds::from_units(total) }
}

fn review(who: &str, score: ReviewScore) -> AdvisorReviewRow {
    AdvisorReviewRow { assessor: who.to_string(), score }
}

fn proposal(id: &str, reviews: Vec<AdvisorReviewRow>) -> ProposalReviews {
    ProposalReviews { id: id.to_string(), reviews }
}

fn exact_reviews() -> Vec<AdvisorReviewRow> {
    vec![
        review("a", ReviewScore::Excellent),
        review("a", ReviewScore::Excellent),
        review("b", ReviewScore::Good),
        review("b", ReviewScore::Good),
    ]
}

fn units(r: &CaRewards, who: &str) -> Option<u128> {
    r.get(&who.to_string()).map(|f| f.units)
}

fn total(r: &CaRewards) -> u128 {
    r.entries.iter().map(|e| e.rewards.units).sum()
}

#[test]
fn end_to_end_single_exact_proposal() {
    let ps = vec![proposal("p1", exact_reviews())];
    let r = calculate_ca_rewards(&ps, &vec![], &setting(1000, 0), &slots(10), 7).unwrap();
    let scale = round_scale(1, 10, 0);
    assert_eq!(scale, 10_000);
    assert_eq!(units(&r, "a"), Some(600 * scale));
    assert_eq!(units(&r, "b"), Some(400 * scale));
    assert_eq!(r.len(), 2);
    assert_eq!(total(&r), 1000 * scale);
}

#[test]
fn exact_round_conserves_the_pool() {
    let ps = vec![
        proposal("p1", exact_reviews()),
        proposal(
            "p2",
            vec![
                review("c", ReviewScore::Good),
                review("a", ReviewScore::Good),
                review("c", ReviewScore::Excellent),
                review("d", ReviewScore::Excellent),
            ],
        ),
    ];
    let r = calculate_ca_rewards(&ps, &vec![], &setting(2000, 0), &slots(10), 1).unwrap();
    let scale = round_scale(2, 10, 0);
    assert_eq!(total(&r), 2000 * scale);
    assert_eq!(units(&r, "a"), Some((600 + 200) * scale));
    assert_eq!(units(&r, "c"), Some(500 * scale));
    assert_eq!(units(&r, "d"), Some(300 * scale));
}

#[test]
fn unfilled_proposal_keeps_the_unfilled_share() {
    let rows = vec![review("a", ReviewScore::Good), review("b", ReviewScore::Good)];
    let state = proposal_rewards_state(&rows, Funds::from_units(1000), &slots(10));
    assert_eq!(state, ProposalFundsState::Unfilled(Funds::from_units(400)));
    let ps = vec![proposal("p1", rows)];
    let rewards = calculate_funds_per_proposal(&ps, &vec![], &setting(1000, 0), &slots(10));
    assert_eq!(rewards[0].funds.units, 600 * round_scale(1, 10, 0));
}

#[test]
fn reclaim_is_exact_where_the_target_does_not_divide_the_pool() {
    let rows = vec![review("a", ReviewScore::Good)];
    let ps = vec![proposal("p1", rows)];
    let rewards = calculate_funds_per_proposal(&ps, &vec![], &setting(1000, 0), &slots(3));
    let scale = round_scale(1, 3, 0);
    // 2 of 3 tickets: 2000 / 3 goes back, 1000 / 3 is kept
    assert_eq!(rewards[0].state, ProposalFundsState::Unfilled(Funds::from_units(2000 * scale / 3)));
    assert_eq!(rewards[0].funds.units * 3, 1000 * scale);
}

#[test]
fn exact_proposal_pays_all_its_funds_whatever_the_target() {
    let ps = vec![proposal("p1", vec![review("a", ReviewScore::Excellent)])];
    let r = calculate_ca_rewards(&ps, &vec![], &setting(1000, 0), &slots(3), 3).unwrap();
    assert_eq!(units(&r, "a"), Some(1000 * round_scale(1, 3, 0)));
}

#[test]
fn classification_by_tickets() {
    let s = slots(10);
    let base = Funds::from_units(1000);
    assert_eq!(proposal_rewards_state(&exact_reviews(), base, &s), ProposalFundsState::Exact);
    let mut more = exact_reviews();
    more.push(review("c", ReviewScore::Good));
    assert_eq!(proposal_rewards_state(&more, base, &s), ProposalFundsState::OverLoaded);
    assert_eq!(
        proposal_rewards_state(&vec![], base, &s),
        ProposalFundsState::Unfilled(Funds::from_units(0))
    );
}

#[test]
fn supplement_goes_to_proposals_that_are_not_unfilled() {
    let ps = vec![
        proposal("full", exact_reviews()),
        proposal("half", vec![review("c", ReviewScore::Good), review("c", ReviewScore::Good)]),
    ];
    let rewards = calculate_funds_per_proposal(&ps, &vec![], &setting(2000, 0), &slots(10));
    let scale = round_scale(2, 10, 0);
    // the unfilled one gives back 400, split over both proposals
    assert_eq!(rewards[0].funds.units, (1000 + 200) * scale);
    assert_eq!(rewards[1].funds.units, 600 * scale);
    assert_eq!(rewards[1].state, ProposalFundsState::Unfilled(Funds::from_units(400 * scale)));
}

#[test]
fn approved_proposal_gets_exactly_the_bonus_more() {
    let ps = vec![proposal("p1", exact_reviews()), proposal("p2", exact_reviews())];
    let approved = vec!["p1".to_string()];
    let rewards = calculate_funds_per_proposal(&ps, &approved, &setting(2000, 10), &slots(10));
    let scale = round_scale(2, 10, 1);
    assert_eq!(rewards[0].funds.units, rewards[1].funds.units + 200 * scale);
    assert_eq!(rewards[1].funds.units, 1000 * scale);
}

#[test]
fn lottery_pays_exactly_the_target_number_of_tickets() {
    let rows = vec![
        review("a", ReviewScore::Excellent),
        review("a", ReviewScore::Excellent),
        review("b", ReviewScore::Excellent),
        review("b", ReviewScore::Excellent),
        review("c", ReviewScore::Excellent),
        review("c", ReviewScore::Excellent),
    ];
    let s = slots(10);
    let tickets = load_tickets_from_reviews(&rows, &s);
    for seed in 0..50u64 {
        let r = lottery_rewards(Funds::from_units(1000), &tickets, &s, seed);
        assert_eq!(total(&r), 1000);
        for e in r.entries.iter() {
            assert!(e.rewards.units <= 600);
            assert_eq!(e.rewards.units % 100, 0);
        }
    }
}

#[test]
fn lottery_draws_without_replacement() {
    let rows = vec![review("a", ReviewScore::Good), review("b", ReviewScore::Excellent)];
    let s = slots(4);
    let tickets = load_tickets_from_reviews(&rows, &s);
    for seed in 0..50u64 {
        let won = lottery_distribution(&tickets, &draws_from_seed(seed, 4));
        assert_eq!(won.entries.len(), 2);
        assert!(won.entries[0].tickets <= 2);
        assert!(won.entries[1].tickets <= 3);
        assert_eq!(won.entries[0].tickets + won.entries[1].tickets, 4);
    }
}

#[test]
fn same_seed_same_rewards() {
    let rows: Vec<AdvisorReviewRow> =
        ["a", "b", "c", "d", "e"].iter().map(|w| review(w, ReviewScore::Excellent)).collect();
    let ps = vec![proposal("p", rows)];
    let one = calculate_ca_rewards(&ps, &vec![], &setting(900, 0), &slots(9), 42).unwrap();
    let two = calculate_ca_rewards(&ps, &vec![], &setting(900, 0), &slots(9), 42).unwrap();
    assert_eq!(one.entries.len(), two.entries.len());
    for (x, y) in one.entries.iter().zip(two.entries.iter()) {
        assert_eq!(x.advisor, y.advisor);
        assert_eq!(x.rewards, y.rewards);
    }
    assert_eq!(total(&one), 900 * round_scale(1, 9, 0));
}

#[test]
fn more_tickets_more_rewards() {
    let rows = vec![
        review("a", ReviewScore::Good),
        review("b", ReviewScore::Good),
        review("b", ReviewScore::Excellent),
    ];
    let s = slots(10);
    let tickets = load_tickets_from_reviews(&rows, &s);
    let r = distribute_rewards(Funds::from_units(1000), &tickets, &s);
    assert_eq!(units(&r, "a"), Some(200));
    assert_eq!(units(&r, "b"), Some(500));
}

#[test]
fn tickets_accumulate_per_advisor() {
    let rows = vec![
        review("a", ReviewScore::Good),
        review("b", ReviewScore::Excellent),
        review("a", ReviewScore::Excellent),
    ];
    let t = load_tickets_from_reviews(&rows, &slots(10));
    assert_eq!(t.entries.len(), 2);
    assert_eq!(t.entries[0].advisor, "a");
    assert_eq!(t.entries[0].tickets, 5);
    assert_eq!(t.entries[1].advisor, "b");
    assert_eq!(t.entries[1].tickets, 3);
}

#[test]
fn per_proposal_rewards_are_exact() {
    let rows = vec![review("a", ReviewScore::Excellent)];
    let s = slots(3);
    let reward = catalyst_toolbox::rewards::ProposalReward {
        state: ProposalFundsState::Exact,
        funds: Funds::from_units(999),
    };
    let r = calculate_ca_rewards_for_proposal(&reward, &rows, &s, 0);
    assert_eq!(units(&r, "a"), Some(999));
}

#[test]
fn unfilled_proposal_pays_its_filled_share() {
    let rows = vec![review("a", ReviewScore::Excellent)];
    let s = slots(7);
    let reward = catalyst_toolbox::rewards::ProposalReward {
        state: ProposalFundsState::Unfilled(Funds::from_units(300)),
        funds: Funds::from_units(700),
    };
    let r = calculate_ca_rewards_for_proposal(&reward, &rows, &s, 0);
    assert_eq!(units(&r, "a"), Some(300));
}

#[test]
fn lottery_of_one_advisor_pays_all_funds() {
    let rows = vec![review("a", ReviewScore::Excellent), review("a", ReviewScore::Good)];
    let s = slots(3);
    let reward = catalyst_toolbox::rewards::ProposalReward {
        state: ProposalFundsState::OverLoaded,
        funds: Funds::from_units(999),
    };
    let r = calculate_ca_rewards_for_proposal(&reward, &rows, &s, 11);
    assert_eq!(units(&r, "a"), Some(999));
}

#[test]
fn zero_target_is_refused() {
    let ps = vec![proposal("p1", exact_reviews())];
    let r = calculate_ca_rewards(&ps, &vec![], &setting(1000, 0), &slots(0), 0);
    assert_eq!(r.err(), Some(RewardsError::ZeroTargetSlots));
}

#[test]
fn empty_proposal_set_is_refused() {
    let r = calculate_ca_rewards(&vec![], &vec![], &setting(1000, 0), &slots(10), 0);
    assert_eq!(r.err(), Some(RewardsError::EmptyProposalSet));
}

#[test]
fn round_scales() {
    assert_eq!(round_scale(2, 10, 0), 40_000);
    assert_eq!(round_scale(3, 2, 4), 100 * 9 * 4 * 4);
}
