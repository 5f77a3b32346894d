//! The privileged surface: suspension judgement, configuration changes
//! and tearing the society down.

use vstd::prelude::*;
use crate::ledger::lemma_sums_nonneg;
use crate::pool::{
    dep_amt, dep_of, has_bid, lemma_dep_insert, lemma_dep_lookup, lemma_dep_nonneg,
    lemma_dep_remove, lemma_dep_split,
};
use crate::registry::{
    in_list, in_members, in_vouching, lemma_list_remove, lemma_members_push,
    lemma_vouching_remove, lemma_vouching_update,
};
use crate::society::{bid_index, find_bid_in, find_in_list, find_vouch_in, insert_pos, vouch_index, Society};
use crate::payouts::{mtotal, pq_push, ptotal};
use crate::types::{Bid, BidKind, Error, Judgement, Member, Origin, VouchEntry, VouchingStatus};

verus! {

/// The index of `w` in a plain account list (meaningful when present).
pub open spec fn list_index(s: Seq<u64>, w: u64) -> int {
    choose|i: int| 0 <= i < s.len() && s[i] == w
}

impl Society {
    /// Final judgement on a suspended member. Approval seats them again
    /// with a clean slate; rejection removes them for good. Only the
    /// suspension-judgement authority (or root) decides.
    pub fn judge_suspended_member(&mut self, origin: Origin, who: u64, approve: bool) -> (r:
        Result<(), Error>)
        requires
            old(self).inv(),
        ensures
            final(self).inv(),
            r == Err::<(), Error>(Error::BadOrigin) <==> origin != Origin::SuspensionJudgement
                && origin != Origin::Root,
            r is Ok <==> (origin == Origin::SuspensionJudgement || origin == Origin::Root)
                && old(self).is_suspended_member(who),
            r is Err ==> *final(self) == *old(self),
            (origin == Origin::SuspensionJudgement || origin == Origin::Root)
                && !old(self).is_suspended_member(who) ==> r == Err::<(), Error>(
                Error::NotSuspended,
            ),
            r is Ok ==> final(self).suspended_members@ == old(self).suspended_members@.remove(
                list_index(old(self).suspended_members@, who),
            )
                && final(self).members@ == if approve {
                    old(self).members@.push(Member { who, strikes: 0u32 })
                } else {
                    old(self).members@
                }
                && final(self).ledger == old(self).ledger
                && final(self).pot == old(self).pot
                && final(self).bids == old(self).bids
                && final(self).candidates == old(self).candidates
                && final(self).suspended_candidates == old(self).suspended_candidates
                && final(self).vouching == old(self).vouching
                && final(self).payouts == old(self).payouts
                && final(self).votes == old(self).votes
                && final(self).defender == old(self).defender
                && final(self).defender_votes == old(self).defender_votes
                && final(self).period == old(self).period
                && final(self).founded == old(self).founded
                && final(self).config == old(self).config,
    {
        match origin {
            Origin::SuspensionJudgement | Origin::Root => {},
            _ => {
                return Err(Error::BadOrigin);
            },
        }
        let idx = match find_in_list(&self.suspended_members, who) {
            Some(i) => i,
            None => {
                return Err(Error::NotSuspended);
            },
        };
        proof {
            let k = list_index(self.suspended_members@, who);
            assert(self.suspended_members@[k] == who);
            assert(self.suspended_members@[idx as int] == who);
            assert(k == idx as int);
            lemma_list_remove(self.suspended_members@, idx as int);
        }
        self.suspended_members.remove(idx);
        if approve {
            proof {
                lemma_members_push(self.members@, Member { who, strikes: 0u32 });
                assert(!in_members(old(self).members@, who));
            }
            self.members.push(Member { who, strikes: 0 });
        }
        proof {
            let oldst = *old(self);
            assert forall|w: u64| #[trigger] in_members(self.members@, w)
                implies !has_bid(self.candidates@, w) && !in_list(self.suspended_members@, w)
                    && !has_bid(self.suspended_candidates@, w) && !has_bid(self.bids@, w) by {
                if in_list(self.suspended_members@, w) {
                    assert(in_list(oldst.suspended_members@, w));
                }
                if w != who {
                    assert(in_members(oldst.members@, w));
                }
            }
            assert forall|w: u64| #[trigger] has_bid(self.candidates@, w)
                implies !in_list(self.suspended_members@, w)
                    && !has_bid(self.suspended_candidates@, w) && !has_bid(self.bids@, w) by {
                if in_list(self.suspended_members@, w) {
                    assert(in_list(oldst.suspended_members@, w));
                }
            }
            assert forall|w: u64| #[trigger] in_list(self.suspended_members@, w)
                implies !has_bid(self.suspended_candidates@, w)
                    && !has_bid(self.bids@, w) by {
                assert(in_list(oldst.suspended_members@, w));
            }
        }
        Ok(())
    }

    /// Final judgement on a suspended candidate. `Approve` admits them
    /// as a member, returning a deposit or booking the sponsor's tip;
    /// `Reject` forfeits the deposit into the pot (and settles the
    /// sponsor per the configured ban policy); `Rebid` puts the
    /// original bid back into the pool for the next period. A vouched
    /// candidacy locked no deposit, so rejecting one forfeits nothing
    /// to the pot.
    pub fn judge_suspended_candidate(&mut self, origin: Origin, who: u64, judgement: Judgement)
        -> (r: Result<(), Error>)
        requires
            old(self).inv(),
        ensures
            final(self).inv(),
            r == Err::<(), Error>(Error::BadOrigin) <==> origin != Origin::SuspensionJudgement
                && origin != Origin::Root,
            r is Ok <==> (origin == Origin::SuspensionJudgement || origin == Origin::Root)
                && old(self).is_suspended_candidate(who),
            r is Err ==> *final(self) == *old(self),
            (origin == Origin::SuspensionJudgement || origin == Origin::Root)
                && !old(self).is_suspended_candidate(who) ==> r == Err::<(), Error>(
                Error::NotSuspendedCandidate,
            ),
            r is Ok ==> {
                let i = bid_index(old(self).suspended_candidates@, who);
                let b = old(self).suspended_candidates@[i];
                &&& final(self).suspended_candidates@
                    == old(self).suspended_candidates@.remove(i)
                &&& final(self).candidates == old(self).candidates
                &&& final(self).suspended_members == old(self).suspended_members
                &&& final(self).votes == old(self).votes
                &&& final(self).defender == old(self).defender
                &&& final(self).defender_votes == old(self).defender_votes
                &&& final(self).period == old(self).period
                &&& final(self).founded == old(self).founded
                &&& final(self).config == old(self).config
                &&& match judgement {
                    Judgement::Approve => {
                        &&& final(self).members@ == old(self).members@.push(
                            Member { who, strikes: 0u32 },
                        )
                        &&& final(self).bids == old(self).bids
                        &&& final(self).pot == old(self).pot
                        &&& match b.kind {
                            BidKind::Deposit(d) => final(self).ledger.free(who)
                                == old(self).ledger.free(who) + d
                                && final(self).ledger.reserved(who)
                                    == old(self).ledger.reserved(who) - d
                                && (forall|x: u64| x != who
                                    ==> #[trigger] final(self).ledger.free(x)
                                        == old(self).ledger.free(x))
                                && (forall|x: u64| x != who
                                    ==> #[trigger] final(self).ledger.reserved(x)
                                        == old(self).ledger.reserved(x))
                                && final(self).ledger.total() == old(self).ledger.total()
                                && final(self).payouts == old(self).payouts
                                && final(self).vouching == old(self).vouching,
                            BidKind::Vouch(sp, tip) => final(self).ledger == old(self).ledger
                                && !in_vouching(final(self).vouching@, sp)
                                && final(self).vouching@ == (if in_vouching(
                                    old(self).vouching@,
                                    sp,
                                ) {
                                    old(self).vouching@.remove(
                                        vouch_index(old(self).vouching@, sp),
                                    )
                                } else {
                                    old(self).vouching@
                                })
                                && ptotal(final(self).payouts@, sp)
                                    == ptotal(old(self).payouts@, sp) + tip
                                && (forall|x: u64| x != sp ==> #[trigger] ptotal(
                                    final(self).payouts@,
                                    x,
                                ) == ptotal(old(self).payouts@, x))
                                && (forall|now: u64| old(self).period <= now
                                    ==> #[trigger] mtotal(final(self).payouts@, sp, now)
                                        == mtotal(old(self).payouts@, sp, now) + tip),
                        }
                    },
                    Judgement::Reject => {
                        &&& final(self).members == old(self).members
                        &&& final(self).bids == old(self).bids
                        &&& final(self).pot == old(self).pot + dep_amt(b)
                        &&& match b.kind {
                            BidKind::Deposit(d) => final(self).ledger.reserved(who)
                                == old(self).ledger.reserved(who) - d
                                && final(self).ledger.free(who) == old(self).ledger.free(who)
                                && (forall|x: u64| x != who
                                    ==> #[trigger] final(self).ledger.free(x)
                                        == old(self).ledger.free(x))
                                && (forall|x: u64| x != who
                                    ==> #[trigger] final(self).ledger.reserved(x)
                                        == old(self).ledger.reserved(x))
                                && final(self).ledger.total() == old(self).ledger.total() - d
                                && final(self).payouts == old(self).payouts
                                && final(self).vouching == old(self).vouching,
                            BidKind::Vouch(sp, _) => final(self).ledger == old(self).ledger
                                && final(self).payouts == old(self).payouts
                                && final(self).vouching@ == (if !in_vouching(
                                    old(self).vouching@,
                                    sp,
                                ) {
                                    old(self).vouching@
                                } else if old(self).config.ban_rejected_sponsors {
                                    old(self).vouching@.update(
                                        vouch_index(old(self).vouching@, sp),
                                        VouchEntry {
                                            sponsor: sp,
                                            status: VouchingStatus::Banned,
                                        },
                                    )
                                } else {
                                    old(self).vouching@.remove(
                                        vouch_index(old(self).vouching@, sp),
                                    )
                                })
                                && (old(self).config.ban_rejected_sponsors
                                    ==> final(self).is_banned(sp) || !in_vouching(
                                    old(self).vouching@,
                                    sp,
                                ))
                                && (!old(self).config.ban_rejected_sponsors ==> !in_vouching(
                                    final(self).vouching@,
                                    sp,
                                )),
                        }
                    },
                    Judgement::Rebid => {
                        &&& final(self).members == old(self).members
                        &&& final(self).bids@ == old(self).bids@.insert(
                            insert_pos(old(self).bids@, b.value),
                            b,
                        )
                        &&& final(self).pot == old(self).pot
                        &&& final(self).ledger == old(self).ledger
                        &&& final(self).payouts == old(self).payouts
                        &&& final(self).vouching == old(self).vouching
                    },
                }
            },
    {
        match origin {
            Origin::SuspensionJudgement | Origin::Root => {},
            _ => {
                return Err(Error::BadOrigin);
            },
        }
        let idx = match find_bid_in(&self.suspended_candidates, who) {
            Some(i) => i,
            None => {
                return Err(Error::NotSuspendedCandidate);
            },
        };
        proof {
            let k = bid_index(self.suspended_candidates@, who);
            assert(self.suspended_candidates@[k].who == who);
            assert(self.suspended_candidates@[idx as int].who == who);
            assert(k == idx as int);
            lemma_dep_remove(self.suspended_candidates@, idx as int);
            lemma_dep_lookup(self.suspended_candidates@, idx as int);
            lemma_dep_nonneg(self.bids@);
            lemma_dep_nonneg(self.candidates@);
        }
        let b = self.suspended_candidates[idx];
        self.suspended_candidates.remove(idx);
        let ghost mid = *self;
        match judgement {
            Judgement::Approve => {
                proof {
                    lemma_members_push(self.members@, Member { who, strikes: 0u32 });
                    assert(!in_members(old(self).members@, who));
                }
                self.members.push(Member { who, strikes: 0 });
                match b.kind {
                    BidKind::Deposit(d) => {
                        proof {
                            assert(old(self).ledger.reserved(who) >= d);
                        }
                        self.ledger.unreserve(who, d);
                    },
                    BidKind::Vouch(sp, tip) => {
                        match find_vouch_in(&self.vouching, sp) {
                            Some(vi) => {
                                proof {
                                    lemma_vouching_remove(self.vouching@, vi as int);
                                    let k = vouch_index(old(self).vouching@, sp);
                                    assert(old(self).vouching@[k].sponsor == sp);
                                    assert(old(self).vouching@[vi as int].sponsor == sp);
                                    assert(k == vi as int);
                                }
                                self.vouching.remove(vi);
                                proof {
                                    if in_vouching(self.vouching@, sp) {
                                        assert(false);
                                    }
                                }
                            },
                            None => {},
                        }
                        let period = self.period;
                        pq_push(&mut self.payouts, sp, period, tip);
                    },
                }
            },
            Judgement::Reject => {
                match b.kind {
                    BidKind::Deposit(d) => {
                        proof {
                            assert(old(self).ledger.reserved(who) >= d);
                            lemma_sums_nonneg(self.ledger.accounts@);
                            crate::ledger::lemma_account_le_funds(self.ledger.accounts@, who);
                        }
                        self.ledger.slash_reserved(who, d);
                        self.pot = self.pot + d;
                    },
                    BidKind::Vouch(sp, _tip) => {
                        match find_vouch_in(&self.vouching, sp) {
                            Some(vi) => {
                                proof {
                                    let k = vouch_index(old(self).vouching@, sp);
                                    assert(old(self).vouching@[k].sponsor == sp);
                                    assert(old(self).vouching@[vi as int].sponsor == sp);
                                    assert(k == vi as int);
                                }
                                if self.config.ban_rejected_sponsors {
                                    proof {
                                        lemma_vouching_update(
                                            self.vouching@,
                                            vi as int,
                                            VouchEntry { sponsor: sp, status: VouchingStatus::Banned },
                                        );
                                    }
                                    self.vouching.set(
                                        vi,
                                        VouchEntry { sponsor: sp, status: VouchingStatus::Banned },
                                    );
                                    proof {
                                        assert(self.is_banned(sp)) by {
                                            assert(self.vouching@[vi as int].sponsor == sp
                                                && self.vouching@[vi as int].status
                                                == VouchingStatus::Banned);
                                        }
                                    }
                                } else {
                                    proof {
                                        lemma_vouching_remove(self.vouching@, vi as int);
                                        assert(self.vouching@[vi as int].sponsor == sp);
                                    }
                                    self.vouching.remove(vi);
                                    proof {
                                        if in_vouching(self.vouching@, sp) {
                                            assert(false);
                                        }
                                    }
                                }
                            },
                            None => {},
                        }
                    },
                }
            },
            Judgement::Rebid => {
                let n = self.bids.len();
                let mut i: usize = 0;
                while i < n && self.bids[i].value <= b.value
                    invariant
                        *self == mid,
                        b == old(self).suspended_candidates@[bid_index(
                            old(self).suspended_candidates@,
                            who,
                        )],
                        n == self.bids@.len(),
                        i <= n,
                        forall|j: int| 0 <= j < i ==> self.bids@[j].value <= b.value,
                    decreases n - i,
                {
                    i = i + 1;
                }
                proof {
                    crate::society::lemma_insert_pos(self.bids@, b.value, 0, i as int);
                    lemma_dep_insert(self.bids@, i as int, b);
                    let s = self.bids@;
                    let t = s.insert(i as int, b);
                    assert(!has_bid(s, who)) by {
                        assert(has_bid(old(self).suspended_candidates@, who));
                    }
                    assert forall|p: int, q: int| 0 <= p < q < t.len()
                        implies t[p].who != t[q].who && t[p].value <= t[q].value by {
                        if q < i {
                            assert(t[p] == s[p] && t[q] == s[q]);
                        } else if p >= i as int + 1 {
                            assert(t[p] == s[p - 1] && t[q] == s[q - 1]);
                        } else if p == i && q > i {
                            assert(t[q] == s[q - 1]);
                            assert(s[q - 1].who != who) by {
                                if s[q - 1].who == who {
                                    assert(has_bid(s, who));
                                }
                            }
                        } else if q == i {
                            assert(t[p] == s[p]);
                            assert(s[p].who != who) by {
                                if s[p].who == who {
                                    assert(has_bid(s, who));
                                }
                            }
                        } else {
                            assert(t[p] == s[p] && t[q] == s[q - 1]);
                            assert(s[p].who != who) by {
                                if s[p].who == who {
                                    assert(has_bid(s, who));
                                }
                            }
                            assert(s[q - 1].who != who) by {
                                if s[q - 1].who == who {
                                    assert(has_bid(s, who));
                                }
                            }
                        }
                    }
                }
                self.bids.insert(i, b);
            },
        }
        proof {
            let oldst = *old(self);
            let i = idx as int;
            let oldsc = oldst.suspended_candidates@;
            assert forall|w: u64| #[trigger] self.ledger.reserved(w) == self.owed(w) by {
                assert(dep_of(self.suspended_candidates@, w) == dep_of(oldsc, w)
                    - if oldsc[i].who == w { dep_amt(oldsc[i]) } else { 0int });
                match judgement {
                    Judgement::Rebid => {
                        assert(dep_of(self.bids@, w) == dep_of(oldst.bids@, w)
                            + if who == w { dep_amt(b) } else { 0int });
                    },
                    _ => {},
                }
            }
            assert forall|w: u64| #[trigger] in_members(self.members@, w)
                implies !has_bid(self.candidates@, w) && !in_list(self.suspended_members@, w)
                    && !has_bid(self.suspended_candidates@, w) && !has_bid(self.bids@, w) by {
                if has_bid(self.suspended_candidates@, w) {
                    assert(has_bid(oldsc, w));
                }
                if w != who {
                    if in_members(self.members@, w) {
                        assert(in_members(oldst.members@, w));
                    }
                    if has_bid(self.bids@, w) {
                        assert(has_bid(oldst.bids@, w));
                    }
                }
            }
            assert forall|w: u64| #[trigger] has_bid(self.candidates@, w)
                implies !in_list(self.suspended_members@, w)
                    && !has_bid(self.suspended_candidates@, w) && !has_bid(self.bids@, w) by {
                if has_bid(self.suspended_candidates@, w) {
                    assert(has_bid(oldsc, w));
                }
                if has_bid(self.bids@, w) && w != who {
                    assert(has_bid(oldst.bids@, w));
                }
            }
            assert forall|w: u64| #[trigger] in_list(self.suspended_members@, w)
                implies !has_bid(self.suspended_candidates@, w)
                    && !has_bid(self.bids@, w) by {
                if has_bid(self.suspended_candidates@, w) {
                    assert(has_bid(oldsc, w));
                }
                if has_bid(self.bids@, w) && w != who {
                    assert(has_bid(oldst.bids@, w));
                }
            }
            assert forall|w: u64| #[trigger] has_bid(self.suspended_candidates@, w)
                implies !has_bid(self.bids@, w) by {
                assert(has_bid(oldsc, w));
                if has_bid(self.bids@, w) && w != who {
                    assert(has_bid(oldst.bids@, w));
                }
            }
        }
        Ok(())
    }

    /// Raise or lower the member cap. A cap below the current
    /// membership only bites at future intakes; nobody is evicted.
    pub fn set_max_members(&mut self, origin: Origin, n: u64) -> (r: Result<(), Error>)
        requires
            old(self).inv(),
        ensures
            final(self).inv(),
            r == Err::<(), Error>(Error::BadOrigin) <==> origin != Origin::Root,
            r == Err::<(), Error>(Error::NotFounded) <==> origin == Origin::Root
                && !old(self).founded,
            r is Ok <==> origin == Origin::Root && old(self).founded,
            r is Err ==> *final(self) == *old(self),
            r is Ok ==> final(self).config.max_members == n
                && final(self).config.max_strikes == old(self).config.max_strikes
                && final(self).config.candidate_deposit == old(self).config.candidate_deposit
                && final(self).config.founder == old(self).config.founder
                && final(self).config.max_intake == old(self).config.max_intake
                && final(self).config.ban_rejected_sponsors
                    == old(self).config.ban_rejected_sponsors
                && final(self).config.name == old(self).config.name
                && final(self).members == old(self).members
                && final(self).bids == old(self).bids
                && final(self).ledger == old(self).ledger
                && final(self).pot == old(self).pot
                && final(self).candidates == old(self).candidates
                && final(self).suspended_members == old(self).suspended_members
                && final(self).suspended_candidates == old(self).suspended_candidates
                && final(self).vouching == old(self).vouching
                && final(self).payouts == old(self).payouts
                && final(self).votes == old(self).votes
                && final(self).defender == old(self).defender
                && final(self).defender_votes == old(self).defender_votes
                && final(self).period == old(self).period
                && final(self).founded == old(self).founded,
    {
        match origin {
            Origin::Root => {},
            _ => {
                return Err(Error::BadOrigin);
            },
        }
        if !self.founded {
            return Err(Error::NotFounded);
        }
        self.config.max_members = n;
        Ok(())
    }

    /// Choose whether sponsors of candidates rejected at judgement are
    /// banned from vouching again, or merely released.
    pub fn set_ban_policy(&mut self, origin: Origin, ban: bool) -> (r: Result<(), Error>)
        requires
            old(self).inv(),
        ensures
            final(self).inv(),
            r == Err::<(), Error>(Error::BadOrigin) <==> origin != Origin::Root,
            r == Err::<(), Error>(Error::NotFounded) <==> origin == Origin::Root
                && !old(self).founded,
            r is Ok <==> origin == Origin::Root && old(self).founded,
            r is Err ==> *final(self) == *old(self),
            r is Ok ==> final(self).config.ban_rejected_sponsors == ban
                && final(self).config.max_members == old(self).config.max_members
                && final(self).config.max_strikes == old(self).config.max_strikes
                && final(self).config.candidate_deposit == old(self).config.candidate_deposit
                && final(self).config.founder == old(self).config.founder
                && final(self).config.max_intake == old(self).config.max_intake
                && final(self).config.name == old(self).config.name
                && final(self).members == old(self).members
                && final(self).bids == old(self).bids
                && final(self).ledger == old(self).ledger
                && final(self).pot == old(self).pot
                && final(self).candidates == old(self).candidates
                && final(self).suspended_members == old(self).suspended_members
                && final(self).suspended_candidates == old(self).suspended_candidates
                && final(self).vouching == old(self).vouching
                && final(self).payouts == old(self).payouts
                && final(self).votes == old(self).votes
                && final(self).defender == old(self).defender
                && final(self).defender_votes == old(self).defender_votes
                && final(self).period == old(self).period
                && final(self).founded == old(self).founded,
    {
        match origin {
            Origin::Root => {},
            _ => {
                return Err(Error::BadOrigin);
            },
        }
        if !self.founded {
            return Err(Error::NotFounded);
        }
        self.config.ban_rejected_sponsors = ban;
        Ok(())
    }

    /// Release every deposit a pool still holds reserved, back to the
    /// bidders' free balances.
    fn refund_pool(&mut self, which: u8)
        requires
            old(self).ledger.wf(),
            old(self).ledger.total() <= u64::MAX,
            which == 0 || which == 1 || which == 2,
            ({
                let v = if which == 0 {
                    old(self).bids@
                } else if which == 1 {
                    old(self).candidates@
                } else {
                    old(self).suspended_candidates@
                };
                forall|w: u64| #[trigger] old(self).ledger.reserved(w) >= dep_of(v, w)
            }),
        ensures
            final(self).ledger.wf(),
            final(self).ledger.total() == old(self).ledger.total(),
            ({
                let v = if which == 0 {
                    old(self).bids@
                } else if which == 1 {
                    old(self).candidates@
                } else {
                    old(self).suspended_candidates@
                };
                &&& forall|w: u64| #[trigger] final(self).ledger.reserved(w)
                    == old(self).ledger.reserved(w) - dep_of(v, w)
                &&& forall|w: u64| #[trigger] final(self).ledger.free(w)
                    == old(self).ledger.free(w) + dep_of(v, w)
            }),
            final(self).bids == old(self).bids,
            final(self).candidates == old(self).candidates,
            final(self).suspended_candidates == old(self).suspended_candidates,
            final(self).members == old(self).members,
            final(self).suspended_members == old(self).suspended_members,
            final(self).vouching == old(self).vouching,
            final(self).payouts == old(self).payouts,
            final(self).votes == old(self).votes,
            final(self).defender == old(self).defender,
            final(self).defender_votes == old(self).defender_votes,
            final(self).pot == old(self).pot,
            final(self).config == old(self).config,
            final(self).founded == old(self).founded,
            final(self).period == old(self).period,
    {
        let ghost v = if which == 0 {
            old(self).bids@
        } else if which == 1 {
            old(self).candidates@
        } else {
            old(self).suspended_candidates@
        };
        proof {
            assert(v.take(0) =~= Seq::<Bid>::empty());
            lemma_dep_nonneg(old(self).bids@);
            lemma_dep_nonneg(old(self).candidates@);
            lemma_dep_nonneg(old(self).suspended_candidates@);
        }
        let n = if which == 0 {
            self.bids.len()
        } else if which == 1 {
            self.candidates.len()
        } else {
            self.suspended_candidates.len()
        };
        let mut i: usize = 0;
        while i < n
            invariant
                old(self).ledger.total() <= u64::MAX,
                forall|w: u64| #[trigger] old(self).ledger.reserved(w) >= dep_of(v, w),
                which == 0 || which == 1 || which == 2,
                v == if which == 0 {
                    old(self).bids@
                } else if which == 1 {
                    old(self).candidates@
                } else {
                    old(self).suspended_candidates@
                },
                n == v.len(),
                i <= n,
                self.bids == old(self).bids,
                self.candidates == old(self).candidates,
                self.suspended_candidates == old(self).suspended_candidates,
                self.members == old(self).members,
                self.suspended_members == old(self).suspended_members,
                self.vouching == old(self).vouching,
                self.payouts == old(self).payouts,
                self.votes == old(self).votes,
                self.defender == old(self).defender,
                self.defender_votes == old(self).defender_votes,
                self.pot == old(self).pot,
                self.config == old(self).config,
                self.founded == old(self).founded,
                self.period == old(self).period,
                self.ledger.wf(),
                self.ledger.total() == old(self).ledger.total(),
                forall|w: u64| #[trigger] self.ledger.reserved(w)
                    == old(self).ledger.reserved(w) - dep_of(v.take(i as int), w),
                forall|w: u64| #[trigger] self.ledger.free(w)
                    == old(self).ledger.free(w) + dep_of(v.take(i as int), w),
            decreases n - i,
        {
            let b = if which == 0 {
                self.bids[i]
            } else if which == 1 {
                self.candidates[i]
            } else {
                self.suspended_candidates[i]
            };
            proof {
                assert(b == v[i as int]);
                assert(v.take(i + 1int).drop_last() =~= v.take(i as int));
                assert(v.take(i + 1int).last() == v[i as int]);
                lemma_dep_split(v, i + 1int);
                lemma_dep_nonneg(v.skip(i + 1int));
                lemma_dep_nonneg(v.take(i as int));
                lemma_dep_nonneg(old(self).bids@);
                lemma_dep_nonneg(old(self).candidates@);
                lemma_dep_nonneg(old(self).suspended_candidates@);
                crate::ledger::lemma_sums_nonneg(self.ledger.accounts@);
            }
            match b.kind {
                BidKind::Deposit(d) => {
                    proof {
                        assert(old(self).ledger.reserved(b.who) >= dep_of(v, b.who));
                        assert(dep_of(v, b.who) >= dep_of(v.take(i as int), b.who) + d);
                        assert(self.ledger.reserved(b.who) >= d);
                    }
                    self.ledger.unreserve(b.who, d);
                },
                BidKind::Vouch(_, _) => {},
            }
            i = i + 1;
        }
        proof {
            assert(v.take(n as int) =~= v);
        }
    }

    /// Wind the society up: release every reserved deposit, hand the
    /// pot to the founder, and clear all state. Only the founder may
    /// dissolve their society.
    pub fn dissolve(&mut self, caller: u64) -> (r: Result<(), Error>)
        requires
            old(self).inv(),
        ensures
            final(self).inv(),
            r is Ok <==> old(self).founded && caller == old(self).config.founder,
            r is Err ==> *final(self) == *old(self) && r == Err::<(), Error>(Error::NotFounder),
            r is Ok ==> !final(self).founded
                && final(self).bids@.len() == 0
                && final(self).members@.len() == 0
                && final(self).candidates@.len() == 0
                && final(self).suspended_members@.len() == 0
                && final(self).suspended_candidates@.len() == 0
                && final(self).vouching@.len() == 0
                && final(self).payouts@.len() == 0
                && final(self).votes@.len() == 0
                && final(self).defender_votes@.len() == 0
                && final(self).period == old(self).period
                && final(self).pot == 0
                && (forall|w: u64| #[trigger] final(self).ledger.reserved(w) == 0)
                && (forall|w: u64| w != old(self).config.founder
                    ==> #[trigger] final(self).ledger.free(w) == old(self).ledger.free(w)
                        + old(self).ledger.reserved(w))
                && final(self).ledger.free(old(self).config.founder)
                    == old(self).ledger.free(old(self).config.founder)
                        + old(self).ledger.reserved(old(self).config.founder) + old(self).pot
                && final(self).ledger.total() == old(self).ledger.total() + old(self).pot,
    {
        if !self.founded {
            return Err(Error::NotFounder);
        }
        if caller != self.config.founder {
            return Err(Error::NotFounder);
        }
        self.teardown();
        Ok(())
    }

    /// Reset the society under the founder-setting authority: the same
    /// wind-up as a dissolution, without a public founder call.
    pub fn unfound(&mut self, origin: Origin) -> (r: Result<(), Error>)
        requires
            old(self).inv(),
        ensures
            final(self).inv(),
            r == Err::<(), Error>(Error::BadOrigin) <==> origin != Origin::FounderSet && origin
                != Origin::Root,
            r == Err::<(), Error>(Error::NotFounded) <==> (origin == Origin::FounderSet || origin
                == Origin::Root) && !old(self).founded,
            r is Ok <==> (origin == Origin::FounderSet || origin == Origin::Root)
                && old(self).founded,
            r is Err ==> *final(self) == *old(self),
            r is Ok ==> !final(self).founded
                && final(self).bids@.len() == 0
                && final(self).members@.len() == 0
                && final(self).candidates@.len() == 0
                && final(self).suspended_members@.len() == 0
                && final(self).suspended_candidates@.len() == 0
                && final(self).vouching@.len() == 0
                && final(self).payouts@.len() == 0
                && final(self).votes@.len() == 0
                && final(self).defender_votes@.len() == 0
                && final(self).period == old(self).period
                && final(self).pot == 0
                && (forall|w: u64| #[trigger] final(self).ledger.reserved(w) == 0)
                && (forall|w: u64| w != old(self).config.founder
                    ==> #[trigger] final(self).ledger.free(w) == old(self).ledger.free(w)
                        + old(self).ledger.reserved(w))
                && final(self).ledger.free(old(self).config.founder)
                    == old(self).ledger.free(old(self).config.founder)
                        + old(self).ledger.reserved(old(self).config.founder) + old(self).pot
                && final(self).ledger.total() == old(self).ledger.total() + old(self).pot,
    {
        match origin {
            Origin::FounderSet | Origin::Root => {},
            _ => {
                return Err(Error::BadOrigin);
            },
        }
        if !self.founded {
            return Err(Error::NotFounded);
        }
        self.teardown();
        Ok(())
    }

    /// Clear the whole society state, releasing reserved funds first.
    fn teardown(&mut self)
        requires
            old(self).inv(),
            old(self).founded,
        ensures
            final(self).inv(),
            !final(self).founded,
            final(self).bids@.len() == 0,
            final(self).members@.len() == 0,
            final(self).candidates@.len() == 0,
            final(self).suspended_members@.len() == 0,
            final(self).suspended_candidates@.len() == 0,
            final(self).vouching@.len() == 0,
            final(self).payouts@.len() == 0,
            final(self).votes@.len() == 0,
            final(self).defender_votes@.len() == 0,
            final(self).pot == 0,
            final(self).period == old(self).period,
            forall|w: u64| #[trigger] final(self).ledger.reserved(w) == 0,
            forall|w: u64| w != old(self).config.founder
                ==> #[trigger] final(self).ledger.free(w) == old(self).ledger.free(w)
                    + old(self).ledger.reserved(w),
            final(self).ledger.free(old(self).config.founder)
                == old(self).ledger.free(old(self).config.founder)
                    + old(self).ledger.reserved(old(self).config.founder) + old(self).pot,
            final(self).ledger.total() == old(self).ledger.total() + old(self).pot,
    {
        proof {
            lemma_dep_nonneg(self.bids@);
            lemma_dep_nonneg(self.candidates@);
            lemma_dep_nonneg(self.suspended_candidates@);
        }
        proof {
            assert forall|w: u64| #[trigger] self.ledger.reserved(w)
                >= dep_of(self.bids@, w) by {
                assert(self.ledger.reserved(w) == self.owed(w));
            }
        }
        self.refund_pool(0);
        let ghost st1 = *self;
        proof {
            assert forall|w: u64| #[trigger] st1.ledger.reserved(w)
                >= dep_of(st1.candidates@, w) by {
                assert(old(self).ledger.reserved(w) == old(self).owed(w));
            }
        }
        self.refund_pool(1);
        let ghost st2 = *self;
        proof {
            assert forall|w: u64| #[trigger] st2.ledger.reserved(w)
                >= dep_of(st2.suspended_candidates@, w) by {
                assert(st1.ledger.reserved(w) >= dep_of(st1.candidates@, w)
                    + dep_of(st1.suspended_candidates@, w)) by {
                    assert(old(self).ledger.reserved(w) == old(self).owed(w));
                }
            }
        }
        self.refund_pool(2);
        proof {
            crate::ledger::lemma_sums_nonneg(self.ledger.accounts@);
            assert forall|w: u64| #[trigger] self.ledger.reserved(w) == 0 by {
                assert(old(self).ledger.reserved(w) == old(self).owed(w));
                assert(st1.ledger.reserved(w)
                    == old(self).ledger.reserved(w) - dep_of(old(self).bids@, w));
                assert(st2.ledger.reserved(w)
                    == st1.ledger.reserved(w) - dep_of(st1.candidates@, w));
                assert(self.ledger.reserved(w)
                    == st2.ledger.reserved(w) - dep_of(st2.suspended_candidates@, w));
            }
        }
        let founder = self.config.founder;
        let pot = self.pot;
        self.ledger.credit(founder, pot);
        self.pot = 0;
        self.bids = Vec::new();
        self.members = Vec::new();
        self.candidates = Vec::new();
        self.votes = Vec::new();
        self.defender = None;
        self.defender_votes = Vec::new();
        self.suspended_members = Vec::new();
        self.suspended_candidates = Vec::new();
        self.vouching = Vec::new();
        self.payouts = Vec::new();
        self.founded = false;
        proof {
            assert forall|w: u64| #[trigger] self.ledger.reserved(w) == self.owed(w) by {
                assert(dep_of(self.bids@, w) == 0);
                assert(dep_of(self.candidates@, w) == 0);
                assert(dep_of(self.suspended_candidates@, w) == 0);
            }
        }
    }
}

} // verus!
