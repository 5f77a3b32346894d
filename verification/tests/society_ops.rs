use society::society::Society;
use society::types::{Bid, BidKind, Error, Origin};

const FOUNDER: u64 = 10;
const DEPOSIT: u64 = 10;

fn founded() -> Society {
    let mut s = Society::new();
    s.setup_society(FOUNDER, DEPOSIT).unwrap();
    s
}

#[test]
fn found_society_sets_founder() {
    let mut s = Society::new();
    assert!(!s.founded);
    s.found_society(Origin::FounderSet, FOUNDER, 5, 3, 3, DEPOSIT, Vec::new()).unwrap();
    assert!(s.founded);
    assert_eq!(s.config.founder, FOUNDER);
    assert_eq!(s.config.max_members, 5);
    assert_eq!(s.config.max_intake, 3);
    assert_eq!(s.config.max_strikes, 3);
    assert_eq!(s.members.len(), 1);
    assert_eq!(s.members[0].who, FOUNDER);
    assert_eq!(s.members[0].strikes, 0);
}

#[test]
fn setup_society_records_fixed_name() {
    let mut s = Society::new();
    s.setup_society(FOUNDER, DEPOSIT).unwrap();
    assert_eq!(s.config.name, b"benchmarking-society".to_vec());
    assert!(!s.config.ban_rejected_sponsors);
}

#[test]
fn found_is_gated_on_suspension_judgement() {
    let mut s = Society::new();
    assert_eq!(
        s.found(Origin::FounderSet, FOUNDER, 5, 3, 3, DEPOSIT, Vec::new()),
        Err(Error::BadOrigin)
    );
    s.found(Origin::SuspensionJudgement, FOUNDER, 5, 3, 3, DEPOSIT, Vec::new()).unwrap();
    assert!(s.founded);
    assert_eq!(s.config.founder, FOUNDER);
    assert_eq!(
        s.found(Origin::SuspensionJudgement, 99, 5, 3, 3, DEPOSIT, Vec::new()),
        Err(Error::AlreadyFounded)
    );
}

#[test]
fn found_society_twice_refused() {
    let mut s = founded();
    assert_eq!(
        s.found_society(Origin::FounderSet, 99, 5, 3, 3, DEPOSIT, Vec::new()),
        Err(Error::AlreadyFounded)
    );
    assert_eq!(s.setup_society(99, DEPOSIT), Err(Error::AlreadyFounded));
}

#[test]
fn found_society_bad_origin() {
    let mut s = Society::new();
    assert_eq!(
        s.found_society(Origin::Signed(1), 1, 5, 3, 3, DEPOSIT, Vec::new()),
        Err(Error::BadOrigin)
    );
    assert!(!s.founded);
}

#[test]
fn bid_reserves_deposit_and_ranks() {
    let mut s = founded();
    s.endow(1, 100);
    s.bid(1, 10).unwrap();
    let first_bid = Bid { who: 1, kind: BidKind::Deposit(DEPOSIT), value: 10 };
    assert_eq!(s.bids, vec![first_bid]);
    assert_eq!(s.ledger.free_balance(1), 90);
    assert_eq!(s.ledger.reserved_balance(1), DEPOSIT);
}

#[test]
fn bid_pool_sorted_with_stable_ties() {
    let mut s = founded();
    for a in 1..=4u64 {
        s.endow(a, 100);
    }
    s.bid(1, 5).unwrap();
    s.bid(2, 3).unwrap();
    s.bid(3, 5).unwrap();
    s.bid(4, 4).unwrap();
    let order: Vec<(u64, u64)> = s.bids.iter().map(|b| (b.who, b.value)).collect();
    // Ascending by value; the earlier bidder at value 5 stays first.
    assert_eq!(order, vec![(2, 3), (4, 4), (1, 5), (3, 5)]);
}

#[test]
fn bid_duplicate_refused() {
    let mut s = founded();
    s.endow(1, 100);
    s.bid(1, 10).unwrap();
    assert_eq!(s.bid(1, 20), Err(Error::AlreadyBidding));
    assert_eq!(s.bid(FOUNDER, 20), Err(Error::AlreadyBidding));
}

#[test]
fn bid_insufficient_funds() {
    let mut s = founded();
    s.endow(1, DEPOSIT - 1);
    assert_eq!(s.bid(1, 10), Err(Error::InsufficientFunds));
    assert_eq!(s.bids.len(), 0);
    assert_eq!(s.ledger.free_balance(1), DEPOSIT - 1);
}

#[test]
fn bid_before_founding() {
    let mut s = Society::new();
    s.endow(1, 100);
    assert_eq!(s.bid(1, 10), Err(Error::NotFounded));
}

#[test]
fn unbid_refunds_deposit() {
    let mut s = founded();
    s.endow(1, 100);
    s.bid(1, 10).unwrap();
    s.unbid(1).unwrap();
    assert_eq!(s.bids, vec![]);
    assert_eq!(s.ledger.free_balance(1), 100);
    assert_eq!(s.ledger.reserved_balance(1), 0);
}

#[test]
fn unbid_without_bid() {
    let mut s = founded();
    assert_eq!(s.unbid(1), Err(Error::NotBidding));
}

#[test]
fn vouch_requires_membership_and_single_stake() {
    let mut s = founded();
    assert_eq!(s.vouch(1, 2, 5, 1), Err(Error::NotMember));
    s.vouch(FOUNDER, 2, 5, 1).unwrap();
    assert_eq!(s.bids.len(), 1);
    assert_eq!(s.bids[0], Bid { who: 2, kind: BidKind::Vouch(FOUNDER, 1), value: 5 });
    // One active vouch per sponsor.
    assert_eq!(s.vouch(FOUNDER, 3, 5, 1), Err(Error::AlreadyVouching));
    // The vouched account is engaged now.
    s.endow(2, 100);
    assert_eq!(s.bid(2, 7), Err(Error::AlreadyBidding));
}

#[test]
fn unvouch_by_position() {
    let mut s = founded();
    s.vouch(FOUNDER, 2, 5, 1).unwrap();
    assert_eq!(s.unvouch(FOUNDER, 3), Err(Error::NotVouchingOnBid));
    assert_eq!(s.unvouch(99, 0), Err(Error::NotVouchingOnBid));
    s.unvouch(FOUNDER, 0).unwrap();
    assert_eq!(s.bids.len(), 0);
    // The sponsor can vouch again.
    s.vouch(FOUNDER, 3, 6, 2).unwrap();
}

#[test]
fn vote_requires_member_and_candidate() {
    let mut s = founded();
    s.endow(1, 100);
    s.bid(1, 5).unwrap();
    assert_eq!(s.vote(99, 1, true), Err(Error::NotMember));
    assert_eq!(s.vote(FOUNDER, 1, true), Err(Error::NotCandidate));
    s.rotate_period(1, None).unwrap();
    s.vote(FOUNDER, 1, true).unwrap();
}

#[test]
fn defender_vote_requires_defender() {
    let mut s = founded();
    assert_eq!(s.defender_vote(FOUNDER, true), Err(Error::NoDefender));
    s.rotate_period(1, Some(FOUNDER)).unwrap();
    s.defender_vote(FOUNDER, true).unwrap();
    assert_eq!(s.defender_vote(99, true), Err(Error::NotMember));
}

#[test]
fn donate_moves_funds_to_pot() {
    let mut s = founded();
    s.endow(1, 100);
    s.donate(1, 60).unwrap();
    assert_eq!(s.pot, 60);
    assert_eq!(s.ledger.free_balance(1), 40);
    assert_eq!(s.donate(1, 60), Err(Error::InsufficientFunds));
    assert_eq!(s.pot, 60);
}

#[test]
fn rotate_period_gating() {
    let mut s = Society::new();
    assert_eq!(s.rotate_period(1, None), Err(Error::NotFounded));
    let mut s = founded();
    s.rotate_period(1, None).unwrap();
    assert_eq!(s.rotate_period(1, None), Err(Error::StalePeriod));
    assert_eq!(s.rotate_period(0, None), Err(Error::StalePeriod));
    s.rotate_period(2, None).unwrap();
}

#[test]
fn intake_respects_member_cap() {
    // Two seats, one already held by the founder: one candidate only,
    // and it is the lowest-value bid.
    let mut s = Society::new();
    s.found_society(Origin::FounderSet, FOUNDER, 2, 3, 3, DEPOSIT, Vec::new()).unwrap();
    for a in 1..=3u64 {
        s.endow(a, 100);
    }
    s.bid(1, 7).unwrap();
    s.bid(2, 4).unwrap();
    s.bid(3, 9).unwrap();
    s.rotate_period(1, None).unwrap();
    assert_eq!(s.candidates.len(), 1);
    assert_eq!(s.candidates[0].who, 2);
    let remaining: Vec<u64> = s.bids.iter().map(|b| b.who).collect();
    assert_eq!(remaining, vec![1, 3]);
}

#[test]
fn intake_respects_max_intake() {
    let mut s = Society::new();
    s.found_society(Origin::FounderSet, FOUNDER, 10, 2, 3, DEPOSIT, Vec::new()).unwrap();
    for a in 1..=3u64 {
        s.endow(a, 100);
        s.bid(a, a).unwrap();
    }
    s.rotate_period(1, None).unwrap();
    assert_eq!(s.candidates.len(), 2);
    assert_eq!(s.candidates[0].who, 1);
    assert_eq!(s.candidates[1].who, 2);
    assert_eq!(s.bids.len(), 1);
}

#[test]
fn tie_vote_rejects_candidate() {
    let mut s = founded();
    s.endow(1, 100);
    s.bid(1, 5).unwrap();
    s.rotate_period(1, None).unwrap();
    // No votes cast: a 0-0 tie rejects.
    s.rotate_period(2, None).unwrap();
    assert_eq!(s.members.len(), 1);
    assert_eq!(s.suspended_candidates.len(), 1);
    assert_eq!(s.suspended_candidates[0].who, 1);
    // The deposit stays locked while suspended.
    assert_eq!(s.ledger.reserved_balance(1), DEPOSIT);
}

#[test]
fn vote_overwrite_last_ballot_wins() {
    let mut s = founded();
    s.endow(1, 100);
    s.bid(1, 5).unwrap();
    s.rotate_period(1, None).unwrap();
    s.vote(FOUNDER, 1, true).unwrap();
    s.vote(FOUNDER, 1, false).unwrap();
    s.rotate_period(2, None).unwrap();
    // The final Reject ballot is the one counted.
    assert_eq!(s.members.len(), 1);
    assert_eq!(s.suspended_candidates.len(), 1);
}

#[test]
fn defender_strike_and_suspension() {
    // One allowed strike: a single failed defence suspends.
    let mut s = Society::new();
    s.found_society(Origin::FounderSet, FOUNDER, 5, 3, 1, DEPOSIT, Vec::new()).unwrap();
    s.rotate_period(1, Some(FOUNDER)).unwrap();
    assert_eq!(s.defender, Some(FOUNDER));
    // Nobody defends the defender: 0-0 fails the challenge.
    s.rotate_period(2, None).unwrap();
    assert_eq!(s.members.len(), 0);
    assert_eq!(s.suspended_members, vec![FOUNDER]);
    assert_eq!(s.defender, None);
}

#[test]
fn defender_survives_approval() {
    let mut s = Society::new();
    s.found_society(Origin::FounderSet, FOUNDER, 5, 3, 1, DEPOSIT, Vec::new()).unwrap();
    s.rotate_period(1, Some(FOUNDER)).unwrap();
    s.defender_vote(FOUNDER, true).unwrap();
    s.rotate_period(2, Some(FOUNDER)).unwrap();
    assert_eq!(s.members.len(), 1);
    assert_eq!(s.members[0].strikes, 0);
}

#[test]
fn judge_suspended_member_paths() {
    let mut s = Society::new();
    s.found_society(Origin::FounderSet, FOUNDER, 5, 3, 1, DEPOSIT, Vec::new()).unwrap();
    s.rotate_period(1, Some(FOUNDER)).unwrap();
    s.rotate_period(2, None).unwrap();
    assert_eq!(s.suspended_members, vec![FOUNDER]);
    assert_eq!(
        s.judge_suspended_member(Origin::Signed(1), FOUNDER, true),
        Err(Error::BadOrigin)
    );
    assert_eq!(
        s.judge_suspended_member(Origin::SuspensionJudgement, 99, true),
        Err(Error::NotSuspended)
    );
    s.judge_suspended_member(Origin::SuspensionJudgement, FOUNDER, true).unwrap();
    assert_eq!(s.suspended_members.len(), 0);
    assert_eq!(s.members.len(), 1);
    assert_eq!(s.members[0].who, FOUNDER);
    assert_eq!(s.members[0].strikes, 0);
}

#[test]
fn judge_suspended_member_reject_removes() {
    let mut s = Society::new();
    s.found_society(Origin::FounderSet, FOUNDER, 5, 3, 1, DEPOSIT, Vec::new()).unwrap();
    s.rotate_period(1, Some(FOUNDER)).unwrap();
    s.rotate_period(2, None).unwrap();
    s.judge_suspended_member(Origin::Root, FOUNDER, false).unwrap();
    assert_eq!(s.suspended_members.len(), 0);
    assert_eq!(s.members.len(), 0);
}

#[test]
fn set_max_members_is_root_only_and_soft() {
    let mut s = founded();
    assert_eq!(s.set_max_members(Origin::Signed(FOUNDER), 1), Err(Error::BadOrigin));
    s.set_max_members(Origin::Root, 1).unwrap();
    assert_eq!(s.config.max_members, 1);
    // Nobody is evicted; the cap only bites at intake.
    assert_eq!(s.members.len(), 1);
    s.endow(1, 100);
    s.bid(1, 5).unwrap();
    s.rotate_period(1, None).unwrap();
    assert_eq!(s.candidates.len(), 0);
    assert_eq!(s.bids.len(), 1);
}

#[test]
fn dissolve_only_founder_and_refunds() {
    let mut s = founded();
    s.endow(1, 100);
    s.bid(1, 5).unwrap();
    s.endow(FOUNDER, 40);
    s.donate(FOUNDER, 30).unwrap();
    assert_eq!(s.dissolve(1), Err(Error::NotFounder));
    s.dissolve(FOUNDER).unwrap();
    assert!(!s.founded);
    assert_eq!(s.bids.len(), 0);
    assert_eq!(s.members.len(), 0);
    assert_eq!(s.pot, 0);
    // The bidder's deposit came back; the pot went to the founder.
    assert_eq!(s.ledger.free_balance(1), 100);
    assert_eq!(s.ledger.reserved_balance(1), 0);
    assert_eq!(s.ledger.free_balance(FOUNDER), 40);
    // A dissolved society can be founded again.
    s.setup_society(FOUNDER, DEPOSIT).unwrap();
}

#[test]
fn unfound_is_authority_gated() {
    let mut s = founded();
    assert_eq!(s.unfound(Origin::Signed(FOUNDER)), Err(Error::BadOrigin));
    s.unfound(Origin::FounderSet).unwrap();
    assert!(!s.founded);
    assert_eq!(s.unfound(Origin::FounderSet), Err(Error::NotFounded));
}
