//! Reward allocation for the community advisors of a funding round, and the
//! records of the proposal platform that feed it.
use vstd::prelude::*;

pub mod funds;
pub mod laws;

pub mod ledger;
pub mod lottery;
pub mod models;
pub mod payout;
pub mod rewards;
pub mod text;

pub use funds::{FundSetting, Funds, ProposalRewardSlots};
pub use ledger::{AdvisorReviewRow, ReviewScore, TicketsDistribution};
pub use models::{AdaRewards, Challenge, CleanString, Fund, Funnel, Proposer, Stage};
pub use payout::{CaRewards, RewardsError, calculate_ca_rewards};
pub use rewards::{ProposalFundsState, ProposalReward, ProposalReviews};
pub use text::clean_str;

verus! {

} // verus!
