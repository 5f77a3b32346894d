//! End-to-end runs of the society over several periods, and the payout
//! round trips.

use society::society::Society;
use society::types::{Error, Judgement, Origin, VouchingStatus};

const FOUNDER: u64 = 100;

#[test]
fn payout_round_trip() {
    let mut s = Society::new();
    s.setup_society(FOUNDER, 10).unwrap();
    s.endow(FOUNDER, 500);
    s.donate(FOUNDER, 300).unwrap();
    let a: u64 = 1;
    s.bump_payout(Origin::Root, a, 7, 100).unwrap();
    // Before maturity: nothing to pay, nothing changes.
    assert_eq!(s.payout(a, 6), Err(Error::NoPayout));
    assert_eq!(s.ledger.free_balance(a), 0);
    assert_eq!(s.pot, 300);
    // At maturity with a covering pot: one 100-unit transfer.
    assert_eq!(s.payout(a, 7), Ok(100));
    assert_eq!(s.ledger.free_balance(a), 100);
    assert_eq!(s.pot, 200);
    assert_eq!(s.payout(a, 7), Err(Error::NoPayout));
}

#[test]
fn payout_releases_only_matured_entries() {
    let mut s = Society::new();
    s.setup_society(FOUNDER, 10).unwrap();
    s.endow(FOUNDER, 500);
    s.donate(FOUNDER, 300).unwrap();
    let a: u64 = 1;
    s.bump_payout(Origin::Root, a, 5, 40).unwrap();
    s.bump_payout(Origin::Root, a, 20, 60).unwrap();
    assert_eq!(s.payout(a, 10), Ok(40));
    assert_eq!(s.ledger.free_balance(a), 40);
    // The unmatured entry stays queued for later.
    assert_eq!(s.payout(a, 10), Err(Error::NoPayout));
    assert_eq!(s.payout(a, 20), Ok(60));
    assert_eq!(s.ledger.free_balance(a), 100);
}

#[test]
fn payout_insufficient_pot_keeps_entries() {
    let mut s = Society::new();
    s.setup_society(FOUNDER, 10).unwrap();
    s.endow(FOUNDER, 100);
    s.donate(FOUNDER, 30).unwrap();
    let a: u64 = 1;
    s.bump_payout(Origin::Root, a, 1, 80).unwrap();
    assert_eq!(s.payout(a, 5), Err(Error::InsufficientPot));
    assert_eq!(s.pot, 30);
    assert_eq!(s.ledger.free_balance(a), 0);
    // Retried after the pot grows, the same entry pays out.
    s.donate(FOUNDER, 60).unwrap();
    assert_eq!(s.payout(a, 5), Ok(80));
    assert_eq!(s.pot, 10);
}

#[test]
fn bump_payout_keeps_queue_sorted() {
    let mut s = Society::new();
    s.setup_society(FOUNDER, 10).unwrap();
    let a: u64 = 1;
    s.bump_payout(Origin::Root, a, 20, 1).unwrap();
    s.bump_payout(Origin::Root, a, 5, 2).unwrap();
    s.bump_payout(Origin::Root, a, 10, 3).unwrap();
    assert_eq!(s.bump_payout(Origin::Signed(a), a, 1, 1), Err(Error::BadOrigin));
    let whens: Vec<u64> = s.payouts[0].entries.iter().map(|e| e.when).collect();
    assert_eq!(whens, vec![5, 10, 20]);
}

#[test]
fn admission_of_two_bidders() {
    // Five seats, intake three, three strikes, deposit ten; two bids at
    // values five and three both become candidates, are approved, and
    // are seated with their deposits back.
    let mut s = Society::new();
    s.found_society(Origin::FounderSet, FOUNDER, 5, 3, 3, 10, Vec::new()).unwrap();
    s.endow(1, 50);
    s.endow(2, 50);
    s.bid(1, 5).unwrap();
    s.bid(2, 3).unwrap();
    assert_eq!(s.ledger.free_balance(1), 40);
    assert_eq!(s.ledger.free_balance(2), 40);

    s.rotate_period(1, None).unwrap();
    assert_eq!(s.candidates.len(), 2);
    assert_eq!(s.candidates[0].who, 2);
    assert_eq!(s.candidates[1].who, 1);
    assert_eq!(s.bids.len(), 0);

    s.vote(FOUNDER, 1, true).unwrap();
    s.vote(FOUNDER, 2, true).unwrap();
    s.rotate_period(2, None).unwrap();

    let members: Vec<(u64, u32)> = s.members.iter().map(|m| (m.who, m.strikes)).collect();
    assert_eq!(members, vec![(FOUNDER, 0), (2, 0), (1, 0)]);
    assert_eq!(s.suspended_candidates.len(), 0);
    // Deposits returned in full.
    assert_eq!(s.ledger.free_balance(1), 50);
    assert_eq!(s.ledger.free_balance(2), 50);
    assert_eq!(s.ledger.reserved_balance(1), 0);
    assert_eq!(s.ledger.reserved_balance(2), 0);
}

#[test]
fn rejected_deposit_candidate_forfeits_on_judgement() {
    let mut s = Society::new();
    s.setup_society(FOUNDER, 10).unwrap();
    s.endow(1, 50);
    s.bid(1, 5).unwrap();
    s.rotate_period(1, None).unwrap();
    s.vote(FOUNDER, 1, false).unwrap();
    s.rotate_period(2, None).unwrap();
    assert_eq!(s.suspended_candidates.len(), 1);
    let pot_before = s.pot;
    s.judge_suspended_candidate(Origin::SuspensionJudgement, 1, Judgement::Reject).unwrap();
    assert_eq!(s.suspended_candidates.len(), 0);
    // The pot grows by the forfeited deposit; the bidder never gets it
    // back.
    assert_eq!(s.pot, pot_before + 10);
    assert_eq!(s.ledger.free_balance(1), 40);
    assert_eq!(s.ledger.reserved_balance(1), 0);
}

#[test]
fn rebid_returns_the_original_bid() {
    let mut s = Society::new();
    s.setup_society(FOUNDER, 10).unwrap();
    s.endow(1, 50);
    s.bid(1, 5).unwrap();
    let original = s.bids[0];
    s.rotate_period(1, None).unwrap();
    s.rotate_period(2, None).unwrap();
    s.judge_suspended_candidate(Origin::SuspensionJudgement, 1, Judgement::Rebid).unwrap();
    assert_eq!(s.bids, vec![original]);
    assert_eq!(s.ledger.reserved_balance(1), 10);
    assert_eq!(
        s.judge_suspended_candidate(Origin::SuspensionJudgement, 1, Judgement::Rebid),
        Err(Error::NotSuspendedCandidate)
    );
}

#[test]
fn approved_suspended_candidate_is_seated() {
    let mut s = Society::new();
    s.setup_society(FOUNDER, 10).unwrap();
    s.endow(1, 50);
    s.bid(1, 5).unwrap();
    s.rotate_period(1, None).unwrap();
    s.rotate_period(2, None).unwrap();
    s.judge_suspended_candidate(Origin::Root, 1, Judgement::Approve).unwrap();
    assert_eq!(s.members.len(), 2);
    assert_eq!(s.members[1].who, 1);
    assert_eq!(s.members[1].strikes, 0);
    assert_eq!(s.ledger.free_balance(1), 50);
    assert_eq!(s.ledger.reserved_balance(1), 0);
}

#[test]
fn vouched_candidate_rejected_sponsor_released() {
    // Ban policy off: the judgement clears the sponsor, who may vouch
    // again.
    let mut s = Society::new();
    s.setup_society(FOUNDER, 10).unwrap();
    s.vouch(FOUNDER, 1, 5, 2).unwrap();
    s.rotate_period(1, None).unwrap();
    s.vote(FOUNDER, 1, false).unwrap();
    s.rotate_period(2, None).unwrap();
    assert_eq!(s.suspended_candidates.len(), 1);
    assert_eq!(s.suspended_candidates[0].who, 1);
    let pot_before = s.pot;
    s.judge_suspended_candidate(Origin::SuspensionJudgement, 1, Judgement::Reject).unwrap();
    // A vouched bid locked no deposit, so nothing is forfeited.
    assert_eq!(s.pot, pot_before);
    assert_eq!(s.vouching.len(), 0);
    s.vouch(FOUNDER, 2, 5, 2).unwrap();
}

#[test]
fn vouched_candidate_rejected_sponsor_banned() {
    // Ban policy on: the judgement bans the sponsor from vouching.
    let mut s = Society::new();
    s.setup_society(FOUNDER, 10).unwrap();
    s.set_ban_policy(Origin::Root, true).unwrap();
    s.vouch(FOUNDER, 1, 5, 2).unwrap();
    s.rotate_period(1, None).unwrap();
    s.vote(FOUNDER, 1, false).unwrap();
    s.rotate_period(2, None).unwrap();
    s.judge_suspended_candidate(Origin::SuspensionJudgement, 1, Judgement::Reject).unwrap();
    assert_eq!(s.vouching.len(), 1);
    assert_eq!(s.vouching[0].sponsor, FOUNDER);
    assert_eq!(s.vouching[0].status, VouchingStatus::Banned);
    assert_eq!(s.vouch(FOUNDER, 2, 5, 2), Err(Error::AlreadyVouching));
}

#[test]
fn approved_vouched_candidate_books_sponsor_tip() {
    let mut s = Society::new();
    s.setup_society(FOUNDER, 10).unwrap();
    s.endow(FOUNDER, 100);
    s.donate(FOUNDER, 50).unwrap();
    s.vouch(FOUNDER, 1, 5, 7).unwrap();
    s.rotate_period(1, None).unwrap();
    s.vote(FOUNDER, 1, true).unwrap();
    s.rotate_period(2, None).unwrap();
    // The candidate is seated, the sponsor is released and their tip is
    // payable from the pot at once.
    assert_eq!(s.members.len(), 2);
    assert_eq!(s.members[1].who, 1);
    assert_eq!(s.vouching.len(), 0);
    assert_eq!(s.payout(FOUNDER, 2), Ok(7));
    assert_eq!(s.pot, 43);
    assert_eq!(s.ledger.free_balance(FOUNDER), 57);
}

#[test]
fn unbid_of_vouched_bid_releases_sponsor() {
    let mut s = Society::new();
    s.setup_society(FOUNDER, 10).unwrap();
    s.vouch(FOUNDER, 1, 5, 2).unwrap();
    // The vouched account withdraws its own bid: no deposit moves, and
    // the sponsor may stake a new vouch.
    s.unbid(1).unwrap();
    assert_eq!(s.bids.len(), 0);
    assert_eq!(s.vouching.len(), 0);
    s.vouch(FOUNDER, 2, 5, 2).unwrap();
}

#[test]
fn bump_payout_needs_a_founded_society() {
    let mut s = Society::new();
    assert_eq!(s.bump_payout(Origin::Root, 1, 1, 1), Err(Error::NotFounded));
    assert_eq!(s.payouts.len(), 0);
}
