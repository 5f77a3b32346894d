//! A self-governing membership society.
//!
//! A bounded group of accounts admits new members through competitive
//! bidding and peer voting, periodically re-validates an incumbent
//! "defender", and releases pooled funds to members over time. The whole
//! state machine — bid ranking, candidate intake, vote tallying, strike
//! accumulation, suspension judgement and payout vesting — is verified:
//! every operation carries a contract describing exactly how it changes
//! the state, and the structural and fund-accounting invariants are
//! proved to hold across every sequence of calls.

pub mod judgement;
pub mod laws;
pub mod ledger;
pub mod payouts;
pub mod pool;
pub mod registry;
pub mod rounds;
pub mod society;
pub mod voting;
pub mod types;
