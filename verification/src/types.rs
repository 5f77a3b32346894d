//! Plain data carried by the society state machine.
//!
//! Accounts, balances and times are fixed-width integers; the transport
//! layer that authenticates callers is out of scope and is represented by
//! the [`Origin`] enum it resolves to.

use vstd::prelude::*;

verus! {

/// How a pending bid is backed.
#[derive(Clone, Copy, PartialEq, Eq, Structural, Debug)]
pub enum BidKind {
    /// The bidder has reserved this deposit from their own balance.
    Deposit(u64),
    /// A member (the first field) sponsors the bidder and is owed the
    /// given tip if the candidate is admitted.
    Vouch(u64, u64),
}

/// A pending request for membership, ranked ascending by `value`.
#[derive(Clone, Copy, PartialEq, Eq, Structural, Debug)]
pub struct Bid {
    pub who: u64,
    pub kind: BidKind,
    pub value: u64,
}

/// A current member together with the strikes accumulated from failed
/// defender challenges.
#[derive(Clone, Copy, PartialEq, Eq, Structural, Debug)]
pub struct Member {
    pub who: u64,
    pub strikes: u32,
}

/// One vote on one candidate; the last ballot per (candidate, voter)
/// pair before the tally wins.
#[derive(Clone, Copy, PartialEq, Eq, Structural, Debug)]
pub struct Ballot {
    pub candidate: u64,
    pub voter: u64,
    pub approve: bool,
}

/// One vote on the current defender; the last ballot per voter wins.
#[derive(Clone, Copy, PartialEq, Eq, Structural, Debug)]
pub struct DefenderBallot {
    pub voter: u64,
    pub approve: bool,
}

/// Whether a sponsor currently stakes a vouch, or has been banned from
/// vouching after a failed one.
#[derive(Clone, Copy, PartialEq, Eq, Structural, Debug)]
pub enum VouchingStatus {
    Vouching,
    Banned,
}

/// Sponsorship record of one member.
#[derive(Clone, Copy, PartialEq, Eq, Structural, Debug)]
pub struct VouchEntry {
    pub sponsor: u64,
    pub status: VouchingStatus,
}

/// A vested share of the pot: `amount` becomes payable once the clock
/// reaches `when`.
#[derive(Clone, Copy, PartialEq, Eq, Structural, Debug)]
pub struct PayoutEntry {
    pub when: u64,
    pub amount: u64,
}

/// The pending payout entries of one account, sorted by maturity.
pub struct PayoutQueue {
    pub who: u64,
    pub entries: Vec<PayoutEntry>,
}

/// Verdict of the suspension-judgement authority on a suspended
/// candidate.
#[derive(Clone, Copy, PartialEq, Eq, Structural, Debug)]
pub enum Judgement {
    Approve,
    Reject,
    Rebid,
}

/// The authority a call arrives under, as resolved by the (external)
/// transport layer.
#[derive(Clone, Copy, PartialEq, Eq, Structural, Debug)]
pub enum Origin {
    /// An ordinary signed caller.
    Signed(u64),
    /// The founder-setting authority.
    FounderSet,
    /// The suspension-judgement authority.
    SuspensionJudgement,
    /// The root authority.
    Root,
}

/// Every way an operation can refuse to act. A failed operation leaves
/// the state untouched.
#[derive(Clone, Copy, PartialEq, Eq, Structural, Debug)]
pub enum Error {
    /// The caller already takes part in the society (as bidder, member,
    /// candidate or suspendee) and so may not bid.
    AlreadyBidding,
    /// The sponsor already has an active vouch, or is banned.
    AlreadyVouching,
    /// The caller has no bid in the pool.
    NotBidding,
    /// The named bid position is not a vouch of this sponsor.
    NotVouchingOnBid,
    /// The caller is not a current member.
    NotMember,
    /// The account voted on is not a current candidate.
    NotCandidate,
    /// There is no defender to vote on.
    NoDefender,
    /// Only the founder may do this.
    NotFounder,
    /// The society already has a founder.
    AlreadyFounded,
    /// The society has not been founded.
    NotFounded,
    /// The account is not a suspended member.
    NotSuspended,
    /// The account is not a suspended candidate.
    NotSuspendedCandidate,
    /// No payout entry has matured yet.
    NoPayout,
    /// The pot cannot cover the matured payout sum.
    InsufficientPot,
    /// The caller's free balance cannot cover the required amount.
    InsufficientFunds,
    /// The call arrived under the wrong authority.
    BadOrigin,
    /// This period boundary was already processed.
    StalePeriod,
}

/// Society configuration, set at founding.
pub struct Config {
    pub founder: u64,
    pub max_members: u64,
    pub max_intake: u64,
    pub max_strikes: u32,
    pub candidate_deposit: u64,
    /// Policy: whether the sponsor of a vouched candidate rejected at
    /// judgement is banned from vouching again, or merely released.
    pub ban_rejected_sponsors: bool,
    pub name: Vec<u8>,
}

} // verus!
