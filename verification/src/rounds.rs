//! The period boundary: one atomic batch step that tallies the
//! candidate round, resolves the defender challenge, and admits the
//! next candidate slate from the bid pool.

use vstd::prelude::*;
use crate::pool::{
    bids_uniq, bids_sorted, dep_amt, dep_of, has_bid, lemma_dep_lookup, lemma_dep_nonneg,
    lemma_dep_split,
};
use crate::registry::{
    entries_sorted, in_list, in_members, in_vouching, lemma_list_push, lemma_members_push,
    lemma_members_remove, lemma_members_update, lemma_vouching_remove, list_uniq, members_uniq,
    member_index, payouts_uniq, vouching_uniq,
};
use crate::society::{find_member_in, find_vouch_in, Society};
use crate::payouts::{mtotal, pq_push, ptotal};
use crate::types::{Ballot, Bid, BidKind, Error, Member};
use crate::voting::{defender_approved, is_approved, tally, tally_defender};

verus! {

/// The members that this round's tally seats: one per approved
/// candidate, in slate order, each with a clean slate of strikes.
pub open spec fn approved_members(c: Seq<Bid>, v: Seq<Ballot>) -> Seq<Member>
    decreases c.len(),
{
    if c.len() == 0 {
        Seq::empty()
    } else {
        let rest = approved_members(c.drop_last(), v);
        if is_approved(v, c.last().who) {
            rest.push(Member { who: c.last().who, strikes: 0u32 })
        } else {
            rest
        }
    }
}

/// The bids of candidates the tally rejects (a tie rejects), in slate
/// order.
pub open spec fn rejected_bids(c: Seq<Bid>, v: Seq<Ballot>) -> Seq<Bid>
    decreases c.len(),
{
    if c.len() == 0 {
        Seq::empty()
    } else {
        let rest = rejected_bids(c.drop_last(), v);
        if is_approved(v, c.last().who) {
            rest
        } else {
            rest.push(c.last())
        }
    }
}

/// Deposit money handed back to `w` by this round's approvals.
pub open spec fn refunded(c: Seq<Bid>, v: Seq<Ballot>, w: u64) -> int
    decreases c.len(),
{
    if c.len() == 0 {
        0
    } else {
        refunded(c.drop_last(), v, w) + if is_approved(v, c.last().who) && c.last().who == w {
            dep_amt(c.last())
        } else {
            0int
        }
    }
}

/// Tips this round books to sponsor `w` for approved vouched
/// candidates.
pub open spec fn tips_of(c: Seq<Bid>, v: Seq<Ballot>, w: u64) -> int
    decreases c.len(),
{
    if c.len() == 0 {
        0
    } else {
        tips_of(c.drop_last(), v, w) + if is_approved(v, c.last().who) {
            match c.last().kind {
                BidKind::Vouch(sp, tip) => if sp == w {
                    tip as int
                } else {
                    0int
                },
                BidKind::Deposit(_) => 0int,
            }
        } else {
            0int
        }
    }
}

/// Sponsor `x` staked an approved vouched candidate this round, so
/// their sponsorship record is released.
pub open spec fn is_cleared_sponsor(c: Seq<Bid>, v: Seq<Ballot>, x: u64) -> bool {
    exists|i: int| 0 <= i < c.len() && is_approved(v, c[i].who)
        && (c[i].kind matches BidKind::Vouch(sp, _) && sp == x)
}

/// The member table after the defender challenge is resolved: on a
/// lost challenge the defender takes a strike, and leaves for
/// suspension when the strikes reach the threshold.
pub open spec fn members_after_defender(s: Society) -> Seq<Member> {
    match s.defender {
        None => s.members@,
        Some(d) => if defender_approved(s.defender_votes@) {
            s.members@
        } else {
            let i = member_index(s.members@, d);
            let m = s.members@[i];
            if m.strikes + 1 >= s.config.max_strikes {
                s.members@.remove(i)
            } else {
                s.members@.update(i, Member { who: d, strikes: (m.strikes + 1) as u32 })
            }
        },
    }
}

/// The defender loses the challenge and crosses the strike threshold.
pub open spec fn defender_struck(s: Society) -> bool {
    match s.defender {
        None => false,
        Some(d) => !defender_approved(s.defender_votes@)
            && s.members@[member_index(s.members@, d)].strikes + 1 >= s.config.max_strikes,
    }
}

/// How many bids the intake takes: the lowest of the configured
/// intake, the free seats, and the pool size.
pub open spec fn intake_count(max_intake: u64, max_members: u64, nmembers: int, nbids: int)
    -> int {
    let seats = if max_members >= nmembers {
        max_members - nmembers
    } else {
        0int
    };
    let cap = if max_intake <= seats {
        max_intake as int
    } else {
        seats
    };
    if cap <= nbids {
        cap
    } else {
        nbids
    }
}

/// One candidate's effect, relating a slate prefix to the next.
pub proof fn lemma_settle_step(c: Seq<Bid>, v: Seq<Ballot>, i: int)
    requires
        0 <= i < c.len(),
    ensures
        approved_members(c.take(i + 1), v) == if is_approved(v, c[i].who) {
            approved_members(c.take(i), v).push(Member { who: c[i].who, strikes: 0u32 })
        } else {
            approved_members(c.take(i), v)
        },
        rejected_bids(c.take(i + 1), v) == if is_approved(v, c[i].who) {
            rejected_bids(c.take(i), v)
        } else {
            rejected_bids(c.take(i), v).push(c[i])
        },
        forall|w: u64| #[trigger] refunded(c.take(i + 1), v, w) == refunded(c.take(i), v, w)
            + (if is_approved(v, c[i].who) && c[i].who == w { dep_amt(c[i]) } else { 0int }),
        forall|w: u64| #[trigger] tips_of(c.take(i + 1), v, w) == tips_of(c.take(i), v, w)
            + (if is_approved(v, c[i].who) {
                match c[i].kind {
                    BidKind::Vouch(sp, tip) => if sp == w {
                        tip as int
                    } else {
                        0int
                    },
                    BidKind::Deposit(_) => 0int,
                }
            } else {
                0int
            }),
        forall|x: u64| #[trigger] is_cleared_sponsor(c.take(i + 1), v, x)
            <==> (is_cleared_sponsor(c.take(i), v, x) || (is_approved(v, c[i].who)
                && (c[i].kind matches BidKind::Vouch(sp, _) && sp == x))),
{
    assert(c.take(i + 1).drop_last() =~= c.take(i));
    assert(c.take(i + 1).last() == c[i]);
    assert forall|x: u64| #[trigger] is_cleared_sponsor(c.take(i + 1), v, x)
        <==> (is_cleared_sponsor(c.take(i), v, x) || (is_approved(v, c[i].who)
            && (c[i].kind matches BidKind::Vouch(sp, _) && sp == x))) by {
        let a = c.take(i);
        let b = c.take(i + 1);
        if is_cleared_sponsor(b, v, x) {
            let k = choose|k: int| 0 <= k < b.len() && is_approved(v, b[k].who)
                && (b[k].kind matches BidKind::Vouch(sp, _) && sp == x);
            if k < i {
                assert(a[k] == b[k]);
                assert(is_cleared_sponsor(a, v, x));
            } else {
                assert(b[k] == c[i]);
            }
        }
        if is_cleared_sponsor(a, v, x) {
            let k = choose|k: int| 0 <= k < a.len() && is_approved(v, a[k].who)
                && (a[k].kind matches BidKind::Vouch(sp, _) && sp == x);
            assert(b[k] == a[k]);
            assert(is_cleared_sponsor(b, v, x));
        }
        if is_approved(v, c[i].who) && (c[i].kind matches BidKind::Vouch(sp, _) && sp == x) {
            assert(b[i] == c[i]);
            assert(is_cleared_sponsor(b, v, x));
        }
    }
}

/// With no bid of `w` in the slate, nothing is refunded to `w`.
pub proof fn lemma_refunded_absent(c: Seq<Bid>, v: Seq<Ballot>, w: u64)
    requires
        !has_bid(c, w),
    ensures
        refunded(c, v, w) == 0,
    decreases c.len(),
{
    if c.len() > 0 {
        assert(!has_bid(c.drop_last(), w)) by {
            if has_bid(c.drop_last(), w) {
                let k = choose|k: int| 0 <= k < c.drop_last().len() && c.drop_last()[k].who == w;
                assert(c[k].who == w);
            }
        }
        assert(c.last().who != w) by {
            if c.last().who == w {
                assert(c[c.len() - 1].who == w);
            }
        }
        lemma_refunded_absent(c.drop_last(), v, w);
    }
}

/// What the tally partition looks like: who it seats, who it rejects,
/// and that refunds plus rejected deposits account for every candidate
/// deposit.
pub proof fn lemma_tally_partition(c: Seq<Bid>, v: Seq<Ballot>)
    ensures
        forall|w: u64| #[trigger] in_members(approved_members(c, v), w)
            <==> (has_bid(c, w) && is_approved(v, w)),
        forall|w: u64| #[trigger] has_bid(rejected_bids(c, v), w)
            <==> (has_bid(c, w) && !is_approved(v, w)),
        forall|k: int| 0 <= k < approved_members(c, v).len()
            ==> (#[trigger] approved_members(c, v)[k]).strikes == 0,
        forall|w: u64| #[trigger] refunded(c, v, w) >= 0,
        forall|w: u64| #[trigger] dep_of(c, w) == refunded(c, v, w)
            + dep_of(rejected_bids(c, v), w),
        bids_uniq(c) ==> members_uniq(approved_members(c, v)),
        bids_uniq(c) ==> bids_uniq(rejected_bids(c, v)),
    decreases c.len(),
{
    if c.len() == 0 {
        assert forall|w: u64| #[trigger] in_members(approved_members(c, v), w)
            <==> (has_bid(c, w) && is_approved(v, w)) by {
            if has_bid(c, w) {
                let k = choose|k: int| 0 <= k < c.len() && c[k].who == w;
            }
            if in_members(approved_members(c, v), w) {
                let k = choose|k: int| 0 <= k < approved_members(c, v).len()
                    && approved_members(c, v)[k].who == w;
            }
        }
        assert forall|w: u64| #[trigger] has_bid(rejected_bids(c, v), w)
            <==> (has_bid(c, w) && !is_approved(v, w)) by {
            if has_bid(c, w) {
                let k = choose|k: int| 0 <= k < c.len() && c[k].who == w;
            }
            if has_bid(rejected_bids(c, v), w) {
                let k = choose|k: int| 0 <= k < rejected_bids(c, v).len()
                    && rejected_bids(c, v)[k].who == w;
            }
        }
        assert forall|w: u64| #[trigger] refunded(c, v, w) >= 0 by {}
        assert forall|w: u64| #[trigger] dep_of(c, w) == refunded(c, v, w)
            + dep_of(rejected_bids(c, v), w) by {}
    } else {
        let d = c.drop_last();
        let b = c.last();
        assert(bids_uniq(c) ==> bids_uniq(d)) by {
            if bids_uniq(c) {
                assert forall|p: int, q: int| 0 <= p < q < d.len()
                    implies d[p].who != d[q].who by {
                    assert(c[p].who != c[q].who);
                }
            }
        }
        lemma_tally_partition(d, v);
        let am = approved_members(c, v);
        let amd = approved_members(d, v);
        let rb = rejected_bids(c, v);
        let rbd = rejected_bids(d, v);
        assert forall|w: u64| #[trigger] has_bid(c, w) <==> (has_bid(d, w) || w == b.who) by {
            if has_bid(c, w) {
                let k = choose|k: int| 0 <= k < c.len() && c[k].who == w;
                if k < d.len() {
                    assert(d[k].who == w);
                }
            }
            if has_bid(d, w) {
                let k = choose|k: int| 0 <= k < d.len() && d[k].who == w;
                assert(c[k].who == w);
            }
            if w == b.who {
                assert(c[c.len() - 1].who == w);
            }
        }
        assert forall|w: u64| #[trigger] in_members(am, w)
            <==> (has_bid(c, w) && is_approved(v, w)) by {
            if is_approved(v, b.who) {
                assert(am == amd.push(Member { who: b.who, strikes: 0u32 }));
                if in_members(am, w) {
                    let k = choose|k: int| 0 <= k < am.len() && am[k].who == w;
                    if k < amd.len() {
                        assert(amd[k].who == w);
                    }
                }
                if in_members(amd, w) {
                    let k = choose|k: int| 0 <= k < amd.len() && amd[k].who == w;
                    assert(am[k].who == w);
                }
                if w == b.who {
                    assert(am[amd.len() as int].who == w);
                }
            } else {
                assert(am == amd);
            }
        }
        assert forall|w: u64| #[trigger] has_bid(rb, w)
            <==> (has_bid(c, w) && !is_approved(v, w)) by {
            if !is_approved(v, b.who) {
                assert(rb == rbd.push(b));
                if has_bid(rb, w) {
                    let k = choose|k: int| 0 <= k < rb.len() && rb[k].who == w;
                    if k < rbd.len() {
                        assert(rbd[k].who == w);
                    }
                }
                if has_bid(rbd, w) {
                    let k = choose|k: int| 0 <= k < rbd.len() && rbd[k].who == w;
                    assert(rb[k].who == w);
                }
                if w == b.who {
                    assert(rb[rbd.len() as int].who == w);
                }
            } else {
                assert(rb == rbd);
            }
        }
        assert forall|k: int| 0 <= k < am.len()
            implies (#[trigger] am[k]).strikes == 0 by {
            if is_approved(v, b.who) {
                if k < amd.len() {
                    assert(am[k] == amd[k]);
                }
            } else {
                assert(am[k] == amd[k]);
            }
        }
        assert forall|w: u64| #[trigger] refunded(c, v, w) >= 0 by {
            assert(refunded(d, v, w) >= 0);
        }
        assert forall|w: u64| #[trigger] dep_of(c, w) == refunded(c, v, w)
            + dep_of(rb, w) by {
            assert(dep_of(d, w) == refunded(d, v, w) + dep_of(rbd, w));
            if !is_approved(v, b.who) {
                assert(rb.drop_last() =~= rbd);
                assert(rb.last() == b);
            }
        }
        if bids_uniq(c) {
            assert(!has_bid(d, b.who)) by {
                if has_bid(d, b.who) {
                    let k = choose|k: int| 0 <= k < d.len() && d[k].who == b.who;
                    assert(c[k].who == c[c.len() - 1].who);
                }
            }
            if is_approved(v, b.who) {
                assert(!in_members(amd, b.who));
                assert forall|p: int, q: int| 0 <= p < q < am.len()
                    implies am[p].who != am[q].who by {
                    if q == amd.len() {
                        assert(am[p] == amd[p]);
                        if amd[p].who == b.who {
                            assert(in_members(amd, b.who));
                        }
                    }
                }
            }
            if !is_approved(v, b.who) {
                assert(!has_bid(rbd, b.who));
                assert forall|p: int, q: int| 0 <= p < q < rb.len()
                    implies rb[p].who != rb[q].who by {
                    if q == rbd.len() {
                        assert(rb[p] == rbd[p]);
                        if rbd[p].who == b.who {
                            assert(has_bid(rbd, b.who));
                        }
                    }
                }
            }
        }
    }
}

/// Every candidate the tally rejects lands in the rejected slate as
/// the very bid it arrived with.
pub proof fn lemma_rejected_contains(c: Seq<Bid>, v: Seq<Ballot>, i: int)
    requires
        0 <= i < c.len(),
        !is_approved(v, c[i].who),
    ensures
        rejected_bids(c, v).contains(c[i]),
    decreases c.len(),
{
    let d = c.drop_last();
    if i == c.len() - 1 {
        let rb = rejected_bids(c, v);
        assert(rb == rejected_bids(d, v).push(c[i]));
        assert(rb[rb.len() - 1] == c[i]);
    } else {
        assert(d[i] == c[i]);
        lemma_rejected_contains(d, v, i);
        let k = choose|k: int| 0 <= k < rejected_bids(d, v).len()
            && rejected_bids(d, v)[k] == c[i];
        if is_approved(v, c.last().who) {
            assert(rejected_bids(c, v) == rejected_bids(d, v));
            assert(rejected_bids(c, v)[k] == c[i]);
        } else {
            assert(rejected_bids(c, v) == rejected_bids(d, v).push(c.last()));
            assert(rejected_bids(c, v)[k] == c[i]);
        }
    }
}

/// Membership distributes over concatenation of member tables.
pub proof fn lemma_members_in_concat(a: Seq<Member>, b: Seq<Member>)
    ensures
        forall|w: u64| #[trigger] in_members(a + b, w) <==> (in_members(a, w) || in_members(
            b,
            w,
        )),
{
    assert forall|w: u64| #[trigger] in_members(a + b, w)
        <==> (in_members(a, w) || in_members(b, w)) by {
        if in_members(a + b, w) {
            let k = choose|k: int| 0 <= k < (a + b).len() && (a + b)[k].who == w;
            if k < a.len() {
                assert(a[k].who == w);
            } else {
                assert(b[k - a.len()].who == w);
            }
        }
        if in_members(a, w) {
            let k = choose|k: int| 0 <= k < a.len() && a[k].who == w;
            assert((a + b)[k].who == w);
        }
        if in_members(b, w) {
            let k = choose|k: int| 0 <= k < b.len() && b[k].who == w;
            assert((a + b)[k + a.len()].who == w);
        }
    }
}

/// The same for bid pools.
pub proof fn lemma_bids_in_concat(a: Seq<Bid>, b: Seq<Bid>)
    ensures
        forall|w: u64| #[trigger] has_bid(a + b, w) <==> (has_bid(a, w) || has_bid(b, w)),
{
    assert forall|w: u64| #[trigger] has_bid(a + b, w)
        <==> (has_bid(a, w) || has_bid(b, w)) by {
        if has_bid(a + b, w) {
            let k = choose|k: int| 0 <= k < (a + b).len() && (a + b)[k].who == w;
            if k < a.len() {
                assert(a[k].who == w);
            } else {
                assert(b[k - a.len()].who == w);
            }
        }
        if has_bid(a, w) {
            let k = choose|k: int| 0 <= k < a.len() && a[k].who == w;
            assert((a + b)[k].who == w);
        }
        if has_bid(b, w) {
            let k = choose|k: int| 0 <= k < b.len() && b[k].who == w;
            assert((a + b)[k + a.len()].who == w);
        }
    }
}

/// The suspended-member list after the defender challenge: the struck
/// defender joins it.
pub open spec fn susp_after_defender(s: Society) -> Seq<u64> {
    if defender_struck(s) {
        s.suspended_members@.push(s.defender->Some_0)
    } else {
        s.suspended_members@
    }
}

impl Society {
    /// Process one period boundary as a single atomic batch: tally the
    /// defender challenge (a lost challenge adds a strike, and a member
    /// reaching the threshold moves to the suspended members), tally
    /// every candidate (approved candidates become members — deposits
    /// returned, sponsors released and their tips booked as payouts
    /// maturing now — while rejected candidates move to the suspended
    /// candidates), clear the round's ballots, admit the lowest-value
    /// bids as the next slate, and seat the injected defender pick.
    ///
    /// Repeating a boundary is refused: `period` must exceed the last
    /// processed one.
    pub fn rotate_period(&mut self, period: u64, pick: Option<u64>) -> (r: Result<(), Error>)
        requires
            old(self).inv(),
        ensures
            final(self).inv(),
            r == Err::<(), Error>(Error::NotFounded) <==> !old(self).founded,
            r == Err::<(), Error>(Error::StalePeriod) <==> old(self).founded && period
                <= old(self).period,
            r is Err ==> *final(self) == *old(self),
            r is Ok <==> old(self).founded && period > old(self).period,
            r is Ok ==> {
                let c = old(self).candidates@;
                let v = old(self).votes@;
                let m1 = members_after_defender(*old(self)) + approved_members(c, v);
                let n = intake_count(
                    old(self).config.max_intake,
                    old(self).config.max_members,
                    m1.len() as int,
                    old(self).bids@.len() as int,
                );
                &&& final(self).members@ == m1
                &&& final(self).suspended_members@ == susp_after_defender(*old(self))
                &&& final(self).suspended_candidates@ == old(self).suspended_candidates@
                    + rejected_bids(c, v)
                &&& final(self).candidates@ == old(self).bids@.take(n)
                &&& final(self).bids@ == old(self).bids@.skip(n)
                &&& final(self).votes@.len() == 0
                &&& final(self).defender_votes@.len() == 0
                &&& final(self).period == period
                &&& final(self).config == old(self).config
                &&& final(self).founded == old(self).founded
                &&& final(self).defender == match pick {
                    Some(p) => if in_members(m1, p) {
                        Some(p)
                    } else {
                        None::<u64>
                    },
                    None => None::<u64>,
                }
                &&& forall|w: u64| #[trigger] final(self).ledger.free(w)
                    == old(self).ledger.free(w) + refunded(c, v, w)
                &&& forall|w: u64| #[trigger] final(self).ledger.reserved(w)
                    == old(self).ledger.reserved(w) - refunded(c, v, w)
                &&& final(self).pot == old(self).pot
                &&& forall|x: u64| #[trigger] ptotal(final(self).payouts@, x)
                    == ptotal(old(self).payouts@, x) + tips_of(c, v, x)
                &&& forall|x: u64, now: u64| #[trigger] mtotal(final(self).payouts@, x, now)
                    == mtotal(old(self).payouts@, x, now) + (if period <= now {
                        tips_of(c, v, x)
                    } else {
                        0int
                    })
                &&& forall|x: u64| #[trigger] is_cleared_sponsor(c, v, x)
                    ==> !in_vouching(final(self).vouching@, x)
                &&& forall|x: u64| !is_cleared_sponsor(c, v, x)
                    ==> (#[trigger] in_vouching(final(self).vouching@, x) <==> in_vouching(
                    old(self).vouching@,
                    x,
                ))
                // Every approved candidate is seated with a clean slate,
                // every rejected one is suspended with its bid intact.
                &&& forall|i: int| 0 <= i < c.len() && is_approved(v, (#[trigger] c[i]).who)
                    ==> final(self).members@.contains(Member { who: c[i].who, strikes: 0u32 })
                &&& forall|i: int| 0 <= i < c.len() && !is_approved(v, (#[trigger] c[i]).who)
                    ==> final(self).suspended_candidates@.contains(c[i])
                // A struck defender leaves the members and is suspended
                // in the same batch step.
                &&& defender_struck(*old(self)) ==> !in_members(
                    final(self).members@,
                    old(self).defender->Some_0,
                ) && in_list(final(self).suspended_members@, old(self).defender->Some_0)
            },
    {
        if !self.founded {
            return Err(Error::NotFounded);
        }
        if period <= self.period {
            return Err(Error::StalePeriod);
        }
        let ghost oldst = *old(self);
        // Resolve the defender challenge.
        match self.defender {
            Some(d) => {
                let (ay, nay) = tally_defender(&self.defender_votes);
                if ay <= nay {
                    let mi = match find_member_in(&self.members, d) {
                        Some(i) => i,
                        None => {
                            proof {
                                assert(false);
                            }
                            0
                        },
                    };
                    proof {
                        let k = member_index(self.members@, d);
                        assert(self.members@[k].who == d);
                        assert(self.members@[mi as int].who == d);
                        assert(k == mi as int);
                    }
                    let m = self.members[mi];
                    if m.strikes + 1 >= self.config.max_strikes {
                        proof {
                            lemma_members_remove(self.members@, mi as int);
                            lemma_list_push(self.suspended_members@, d);
                            assert(!in_list(oldst.suspended_members@, d));
                        }
                        self.members.remove(mi);
                        self.suspended_members.push(d);
                    } else {
                        proof {
                            lemma_members_update(
                                self.members@,
                                mi as int,
                                Member { who: d, strikes: (m.strikes + 1) as u32 },
                            );
                        }
                        self.members.set(mi, Member { who: d, strikes: m.strikes + 1 });
                    }
                }
            },
            None => {},
        }
        self.defender = None;
        self.defender_votes = Vec::new();
        let ghost m1 = self.members@;
        let ghost sm1 = self.suspended_members@;
        proof {
            assert(m1 == members_after_defender(oldst));
            assert(sm1 == susp_after_defender(oldst));
            assert(members_uniq(m1) && list_uniq(sm1)) by {
                match oldst.defender {
                    Some(d) => {
                        if !defender_approved(oldst.defender_votes@) {
                            let k = member_index(oldst.members@, d);
                            if oldst.members@[k].strikes + 1 >= oldst.config.max_strikes {
                                lemma_members_remove(oldst.members@, k);
                                lemma_list_push(oldst.suspended_members@, d);
                            } else {
                                lemma_members_update(
                                    oldst.members@,
                                    k,
                                    Member {
                                        who: d,
                                        strikes: (oldst.members@[k].strikes + 1) as u32,
                                    },
                                );
                            }
                        }
                    },
                    None => {},
                }
            }
            // Facts about who sits where after the defender stage.
            assert forall|w: u64| #[trigger] in_members(m1, w)
                implies in_members(oldst.members@, w) by {
                let k = choose|k: int| 0 <= k < m1.len() && m1[k].who == w;
                match oldst.defender {
                    Some(d) => {
                        if !defender_approved(oldst.defender_votes@) {
                            let di = member_index(oldst.members@, d);
                            if oldst.members@[di].strikes + 1 >= oldst.config.max_strikes {
                                if k < di {
                                    assert(oldst.members@[k].who == w);
                                } else {
                                    assert(oldst.members@[k + 1].who == w);
                                }
                            } else {
                                assert(oldst.members@[k].who == w || w == d);
                                if w == d {
                                    assert(oldst.members@[di].who == w);
                                }
                            }
                        }
                    },
                    None => {},
                }
            }
            assert forall|w: u64| #[trigger] in_list(sm1, w)
                implies in_list(oldst.suspended_members@, w) || in_members(
                    oldst.members@,
                    w,
                ) by {
                if defender_struck(oldst) {
                    let d = oldst.defender->Some_0;
                    if w != d && in_list(sm1, w) {
                        let k = choose|k: int| 0 <= k < sm1.len() && sm1[k] == w;
                        assert(oldst.suspended_members@[k] == w);
                    }
                    if w == d {
                        let di = member_index(oldst.members@, d);
                        assert(oldst.members@[di].who == d);
                    }
                }
            }
            assert forall|k: int| 0 <= k < m1.len()
                implies (#[trigger] m1[k]).strikes < oldst.config.max_strikes by {
                match oldst.defender {
                    Some(d) => {
                        if !defender_approved(oldst.defender_votes@) {
                            let di = member_index(oldst.members@, d);
                            if oldst.members@[di].strikes + 1 >= oldst.config.max_strikes {
                                if k < di {
                                    assert(m1[k] == oldst.members@[k]);
                                } else {
                                    assert(m1[k] == oldst.members@[k + 1]);
                                }
                            }
                        }
                    },
                    None => {},
                }
            }
        }
        // Pull the slate out and settle it candidate by candidate.
        let cn = self.candidates.len();
        let mut cands: Vec<Bid> = Vec::new();
        let mut ci: usize = 0;
        proof {
            assert(self.candidates@.take(0) =~= Seq::<Bid>::empty());
        }
        while ci < cn
            invariant
                cn == self.candidates@.len(),
                ci <= cn,
                self.candidates@ == oldst.candidates@,
                cands@ == self.candidates@.take(ci as int),
            decreases cn - ci,
        {
            proof {
                assert(self.candidates@.take(ci + 1int).drop_last()
                    =~= self.candidates@.take(ci as int));
                assert(self.candidates@.take(ci + 1int).last() == self.candidates@[ci as int]);
            }
            cands.push(self.candidates[ci]);
            ci = ci + 1;
        }
        proof {
            assert(oldst.candidates@.take(cn as int) =~= oldst.candidates@);
            assert(cands@ == oldst.candidates@);
        }
        self.candidates = Vec::new();
        let ghost cc = cands@;
        let ghost vv = self.votes@;
        let n = cands.len();
        let mut i: usize = 0;
        proof {
            assert(cc.take(0) =~= Seq::<Bid>::empty());
            assert(cc.skip(0) =~= cc);
            lemma_tally_partition(cc, vv);
            lemma_dep_nonneg(oldst.bids@);
            lemma_dep_nonneg(oldst.suspended_candidates@);
        }
        while i < n
            invariant
                oldst.inv(),
                oldst == *old(self),
                oldst.founded,
                cc == oldst.candidates@,
                vv == oldst.votes@,
                n == cands@.len(),
                cands@ == cc,
                i <= n,
                self.founded == oldst.founded,
                self.config == oldst.config,
                self.period == oldst.period,
                self.votes@ == oldst.votes@,
                self.defender is None,
                self.defender_votes@.len() == 0,
                self.bids == oldst.bids,
                self.candidates@.len() == 0,
                self.pot == oldst.pot,
                self.members@ == m1 + approved_members(cc.take(i as int), vv),
                self.suspended_members@ == sm1,
                self.suspended_candidates@ == oldst.suspended_candidates@ + rejected_bids(
                    cc.take(i as int),
                    vv,
                ),
                m1 == members_after_defender(oldst),
                sm1 == susp_after_defender(oldst),
                members_uniq(self.members@),
                list_uniq(self.suspended_members@),
                bids_uniq(self.suspended_candidates@),
                forall|k: int| 0 <= k < self.members@.len()
                    ==> (#[trigger] self.members@[k]).strikes < oldst.config.max_strikes,
                self.ledger.wf(),
                self.ledger.total() == oldst.ledger.total(),
                forall|w: u64| #[trigger] self.ledger.free(w) == oldst.ledger.free(w)
                    + refunded(cc.take(i as int), vv, w),
                forall|w: u64| #[trigger] self.ledger.reserved(w) == oldst.ledger.reserved(w)
                    - refunded(cc.take(i as int), vv, w),
                payouts_uniq(self.payouts@),
                forall|k: int| 0 <= k < self.payouts@.len()
                    ==> entries_sorted((#[trigger] self.payouts@[k]).entries@),
                forall|x: u64| #[trigger] ptotal(self.payouts@, x) == ptotal(oldst.payouts@, x)
                    + tips_of(cc.take(i as int), vv, x),
                forall|x: u64, now: u64| #[trigger] mtotal(self.payouts@, x, now) == mtotal(
                    oldst.payouts@,
                    x,
                    now,
                ) + (if period <= now {
                    tips_of(cc.take(i as int), vv, x)
                } else {
                    0int
                }),
                vouching_uniq(self.vouching@),
                forall|x: u64| #[trigger] in_vouching(self.vouching@, x) ==> in_vouching(
                    oldst.vouching@,
                    x,
                ),
                forall|x: u64| #[trigger] is_cleared_sponsor(cc.take(i as int), vv, x)
                    ==> !in_vouching(self.vouching@, x),
                forall|x: u64| !is_cleared_sponsor(cc.take(i as int), vv, x)
                    ==> (#[trigger] in_vouching(self.vouching@, x) <==> in_vouching(
                    oldst.vouching@,
                    x,
                )),
                forall|w: u64| #[trigger] in_members(self.members@, w)
                    ==> !in_list(self.suspended_members@, w)
                        && !has_bid(self.suspended_candidates@, w) && !has_bid(self.bids@, w),
                forall|w: u64| #[trigger] in_list(self.suspended_members@, w)
                    ==> !has_bid(self.suspended_candidates@, w) && !has_bid(self.bids@, w),
                forall|w: u64| #[trigger] has_bid(self.suspended_candidates@, w)
                    ==> !has_bid(self.bids@, w),
                forall|w: u64| #[trigger] has_bid(cc.skip(i as int), w)
                    ==> !in_members(self.members@, w) && !in_list(self.suspended_members@, w)
                        && !has_bid(self.suspended_candidates@, w) && !has_bid(self.bids@, w),
            decreases n - i,
        {
            let c = cands[i];
            let (ay, nay) = tally(&self.votes, c.who);
            proof {
                lemma_settle_step(cc, vv, i as int);
                assert(cc.skip(i as int)[0] == c);
                assert(has_bid(cc.skip(i as int), c.who));
                assert forall|w: u64| #[trigger] has_bid(cc.skip(i + 1int), w)
                    implies has_bid(cc.skip(i as int), w) && w != c.who by {
                    let k = choose|k: int| 0 <= k < cc.skip(i + 1int).len()
                        && (#[trigger] cc.skip(i + 1int)[k]).who == w;
                    assert(cc.skip(i as int)[k + 1] == cc.skip(i + 1int)[k]);
                    if w == c.who {
                        assert(cc[i + 1 + k].who == cc[i as int].who);
                    }
                }
            }
            if ay > nay {
                proof {
                    assert(is_approved(vv, c.who));
                    assert(!in_members(self.members@, c.who));
                    lemma_members_push(self.members@, Member { who: c.who, strikes: 0u32 });
                    assert((m1 + approved_members(cc.take(i as int), vv)).push(
                        Member { who: c.who, strikes: 0u32 },
                    ) =~= m1 + approved_members(cc.take(i + 1int), vv));
                }
                self.members.push(Member { who: c.who, strikes: 0 });
                match c.kind {
                    BidKind::Deposit(d) => {
                        proof {
                            assert(bids_uniq(cc));
                            lemma_dep_lookup(cc, i as int);
                            assert(dep_of(cc, c.who) == d);
                            assert(!has_bid(cc.take(i as int), c.who)) by {
                                if has_bid(cc.take(i as int), c.who) {
                                    let k = choose|k: int| 0 <= k < cc.take(i as int).len()
                                        && cc.take(i as int)[k].who == c.who;
                                    assert(cc[k].who == cc[i as int].who);
                                }
                            }
                            lemma_refunded_absent(cc.take(i as int), vv, c.who);
                            lemma_dep_nonneg(oldst.bids@);
                            lemma_dep_nonneg(oldst.suspended_candidates@);
                            assert(oldst.ledger.reserved(c.who) == dep_of(oldst.bids@, c.who)
                                + dep_of(cc, c.who) + dep_of(oldst.suspended_candidates@, c.who));
                            assert(self.ledger.reserved(c.who) >= d);
                            crate::ledger::lemma_sums_nonneg(self.ledger.accounts@);
                        }
                        self.ledger.unreserve(c.who, d);
                    },
                    BidKind::Vouch(sp, tip) => {
                        match find_vouch_in(&self.vouching, sp) {
                            Some(vi) => {
                                proof {
                                    lemma_vouching_remove(self.vouching@, vi as int);
                                    assert(self.vouching@[vi as int].sponsor == sp);
                                }
                                self.vouching.remove(vi);
                                proof {
                                    if in_vouching(self.vouching@, sp) {
                                        assert(false);
                                    }
                                }
                            },
                            None => {},
                        }
                        pq_push(&mut self.payouts, sp, period, tip);
                    },
                }
            } else {
                proof {
                    assert(!is_approved(vv, c.who));
                    assert(!has_bid(self.suspended_candidates@, c.who));
                    crate::pool::lemma_dep_push(self.suspended_candidates@, c);
                    assert((oldst.suspended_candidates@ + rejected_bids(cc.take(i as int), vv))
                        .push(c) =~= oldst.suspended_candidates@ + rejected_bids(
                        cc.take(i + 1int),
                        vv,
                    ));
                    assert forall|p: int, q: int| 0 <= p < q
                        < self.suspended_candidates@.push(c).len()
                        implies self.suspended_candidates@.push(c)[p].who
                            != self.suspended_candidates@.push(c)[q].who by {
                        let t = self.suspended_candidates@.push(c);
                        if q == self.suspended_candidates@.len() {
                            assert(t[p] == self.suspended_candidates@[p]);
                            if self.suspended_candidates@[p].who == c.who {
                                assert(has_bid(self.suspended_candidates@, c.who));
                            }
                        }
                    }
                }
                self.suspended_candidates.push(c);
            }
            proof {
                // Freshness of the still-unprocessed candidates.
                assert forall|w: u64| #[trigger] has_bid(cc.skip(i + 1int), w)
                    implies !in_members(self.members@, w) && !in_list(
                        self.suspended_members@,
                        w,
                    ) && !has_bid(self.suspended_candidates@, w) && !has_bid(
                        self.bids@,
                        w,
                    ) by {
                    assert(has_bid(cc.skip(i as int), w) && w != c.who);
                    if in_members(self.members@, w) {
                        let k = choose|k: int| 0 <= k < self.members@.len()
                            && self.members@[k].who == w;
                        if k < m1.len() + approved_members(cc.take(i as int), vv).len() {
                            assert(in_members(
                                m1 + approved_members(cc.take(i as int), vv),
                                w,
                            ));
                        }
                    }
                    if has_bid(self.suspended_candidates@, w) {
                        let k = choose|k: int| 0 <= k < self.suspended_candidates@.len()
                            && self.suspended_candidates@[k].who == w;
                        if k < (oldst.suspended_candidates@ + rejected_bids(
                            cc.take(i as int),
                            vv,
                        )).len() {
                            assert(has_bid(
                                oldst.suspended_candidates@ + rejected_bids(
                                    cc.take(i as int),
                                    vv,
                                ),
                                w,
                            ));
                        }
                    }
                }
                // Disjointness among the grown sets.
                assert forall|w: u64| #[trigger] in_members(self.members@, w)
                    implies !in_list(self.suspended_members@, w) && !has_bid(
                        self.suspended_candidates@,
                        w,
                    ) && !has_bid(self.bids@, w) by {
                    if w != c.who {
                        let k = choose|k: int| 0 <= k < self.members@.len()
                            && self.members@[k].who == w;
                        if has_bid(self.suspended_candidates@, w) {
                            let k2 = choose|k2: int| 0 <= k2 < self.suspended_candidates@.len()
                                && self.suspended_candidates@[k2].who == w;
                        }
                    }
                }
                assert forall|w: u64| #[trigger] in_list(self.suspended_members@, w)
                    implies !has_bid(self.suspended_candidates@, w) && !has_bid(
                        self.bids@,
                        w,
                    ) by {
                    if has_bid(self.suspended_candidates@, w) && w != c.who {
                        let k2 = choose|k2: int| 0 <= k2 < self.suspended_candidates@.len()
                            && self.suspended_candidates@[k2].who == w;
                    }
                }
                assert forall|w: u64| #[trigger] has_bid(self.suspended_candidates@, w)
                    implies !has_bid(self.bids@, w) by {
                    if w != c.who {
                        let k2 = choose|k2: int| 0 <= k2 < self.suspended_candidates@.len()
                            && self.suspended_candidates@[k2].who == w;
                    }
                }
            }
            i = i + 1;
        }
        proof {
            assert(cc.take(n as int) =~= cc);
            assert(cc.skip(n as int).len() == 0);
        }
        self.votes = Vec::new();
        // Admit the next slate: the lowest-value bids, as many as the
        // intake and the free seats allow.
        let mlen = self.members.len();
        let mm = self.config.max_members;
        let seats: u64 = if mm > mlen as u64 {
            mm - mlen as u64
        } else {
            0
        };
        let cap: u64 = if self.config.max_intake <= seats {
            self.config.max_intake
        } else {
            seats
        };
        let blen = self.bids.len();
        let n2: usize = if cap <= blen as u64 {
            cap as usize
        } else {
            blen
        };
        let ghost b0 = self.bids@;
        proof {
            assert(b0 == oldst.bids@);
            assert(n2 as int == intake_count(
                oldst.config.max_intake,
                oldst.config.max_members,
                self.members@.len() as int,
                b0.len() as int,
            ));
        }
        let mut newc: Vec<Bid> = Vec::new();
        let mut j: usize = 0;
        proof {
            assert(b0.take(0) =~= Seq::<Bid>::empty());
        }
        while j < n2
            invariant
                n2 <= self.bids@.len(),
                j <= n2,
                b0 == self.bids@,
                newc@ == b0.take(j as int),
            decreases n2 - j,
        {
            proof {
                assert(b0.take(j + 1int).drop_last() =~= b0.take(j as int));
                assert(b0.take(j + 1int).last() == b0[j as int]);
            }
            newc.push(self.bids[j]);
            j = j + 1;
        }
        let mut newb: Vec<Bid> = Vec::new();
        let mut k: usize = n2;
        while k < blen
            invariant
                n2 <= k <= blen,
                blen == self.bids@.len(),
                b0 == self.bids@,
                newb@ == b0.subrange(n2 as int, k as int),
            decreases blen - k,
        {
            proof {
                assert(b0.subrange(n2 as int, k + 1int).drop_last()
                    =~= b0.subrange(n2 as int, k as int));
                assert(b0.subrange(n2 as int, k + 1int).last() == b0[k as int]);
            }
            newb.push(self.bids[k]);
            k = k + 1;
        }
        self.candidates = newc;
        self.bids = newb;
        proof {
            assert(self.bids@ =~= b0.skip(n2 as int));
            lemma_dep_split(b0, n2 as int);
        }
        // Seat the injected defender pick, when it is (still) a member.
        match pick {
            Some(p) => {
                if find_member_in(&self.members, p).is_some() {
                    self.defender = Some(p);
                } else {
                    self.defender = None;
                }
            },
            None => {
                self.defender = None;
            },
        }
        self.period = period;
        proof {
            let finalst = *self;
            let rej = rejected_bids(cc, vv);
            // Fund accounting: refunds and rejections account for every
            // candidate deposit.
            assert forall|w: u64| #[trigger] finalst.ledger.reserved(w)
                == finalst.owed(w) by {
                assert(oldst.ledger.reserved(w) == dep_of(oldst.bids@, w) + dep_of(cc, w)
                    + dep_of(oldst.suspended_candidates@, w));
                assert(dep_of(cc, w) == refunded(cc, vv, w) + dep_of(rej, w));
                assert(dep_of(b0, w) == dep_of(b0.take(n2 as int), w)
                    + dep_of(b0.skip(n2 as int), w));
                crate::pool::lemma_dep_concat(oldst.suspended_candidates@, rej);
            }
            // Lifecycle disjointness, with the new slate drawn from the
            // pool.
            lemma_bids_in_concat(oldst.suspended_candidates@, rej);
            assert forall|w: u64| #[trigger] has_bid(finalst.candidates@, w)
                implies has_bid(b0, w) by {
                let k2 = choose|k2: int| 0 <= k2 < finalst.candidates@.len()
                    && finalst.candidates@[k2].who == w;
                assert(b0[k2].who == w);
            }
            assert forall|w: u64| #[trigger] has_bid(finalst.bids@, w)
                implies has_bid(b0, w) by {
                let k2 = choose|k2: int| 0 <= k2 < finalst.bids@.len()
                    && finalst.bids@[k2].who == w;
                assert(b0[k2 + n2].who == w);
            }
            assert forall|w: u64| #[trigger] has_bid(finalst.candidates@, w)
                implies !has_bid(finalst.bids@, w) by {
                if has_bid(finalst.bids@, w) {
                    let k2 = choose|k2: int| 0 <= k2 < finalst.candidates@.len()
                        && finalst.candidates@[k2].who == w;
                    let k3 = choose|k3: int| 0 <= k3 < finalst.bids@.len()
                        && finalst.bids@[k3].who == w;
                    assert(b0[k2].who == b0[k3 + n2].who);
                }
            }
            assert forall|w: u64| #[trigger] in_members(finalst.members@, w)
                implies !has_bid(finalst.candidates@, w) && !in_list(
                    finalst.suspended_members@,
                    w,
                ) && !has_bid(finalst.suspended_candidates@, w) && !has_bid(
                    finalst.bids@,
                    w,
                ) by {
                if has_bid(finalst.candidates@, w) {
                    assert(has_bid(b0, w));
                }
                if has_bid(finalst.bids@, w) {
                    assert(has_bid(b0, w));
                }
            }
            assert forall|w: u64| #[trigger] has_bid(finalst.candidates@, w)
                implies !in_list(finalst.suspended_members@, w) && !has_bid(
                    finalst.suspended_candidates@,
                    w,
                ) && !has_bid(finalst.bids@, w) by {
                assert(has_bid(b0, w));
            }
            assert forall|w: u64| #[trigger] in_list(finalst.suspended_members@, w)
                implies !has_bid(finalst.suspended_candidates@, w) && !has_bid(
                    finalst.bids@,
                    w,
                ) by {
                if has_bid(finalst.bids@, w) {
                    assert(has_bid(b0, w));
                }
            }
            assert forall|w: u64| #[trigger] has_bid(finalst.suspended_candidates@, w)
                implies !has_bid(finalst.bids@, w) by {
                if has_bid(finalst.bids@, w) {
                    assert(has_bid(b0, w));
                }
            }
            // Structure of the new pool halves.
            assert(bids_uniq(finalst.candidates@)) by {
                assert forall|p: int, q: int| 0 <= p < q < finalst.candidates@.len()
                    implies finalst.candidates@[p].who != finalst.candidates@[q].who by {
                    assert(b0[p].who != b0[q].who);
                }
            }
            assert(bids_uniq(finalst.bids@) && bids_sorted(finalst.bids@)) by {
                assert forall|p: int, q: int| 0 <= p < q < finalst.bids@.len()
                    implies finalst.bids@[p].who != finalst.bids@[q].who
                        && finalst.bids@[p].value <= finalst.bids@[q].value by {
                    assert(b0[p + n2].who != b0[q + n2].who);
                    assert(b0[p + n2].value <= b0[q + n2].value);
                }
            }
            // Strike bounds over the final member table.
            assert forall|k2: int| 0 <= k2 < finalst.members@.len()
                implies (#[trigger] finalst.members@[k2]).strikes
                    < finalst.config.max_strikes by {}
            // The reader-facing tally outcome.
            lemma_members_in_concat(m1, approved_members(cc, vv));
            assert forall|i2: int| 0 <= i2 < cc.len() && is_approved(vv, (#[trigger] cc[i2]).who)
                implies finalst.members@.contains(
                Member { who: cc[i2].who, strikes: 0u32 },
            ) by {
                assert(has_bid(cc, cc[i2].who)) by {
                    assert(cc[i2].who == cc[i2].who);
                }
                assert(in_members(approved_members(cc, vv), cc[i2].who));
                let k2 = choose|k2: int| 0 <= k2 < approved_members(cc, vv).len()
                    && approved_members(cc, vv)[k2].who == cc[i2].who;
                assert(approved_members(cc, vv)[k2].strikes == 0);
                assert(approved_members(cc, vv)[k2] == Member {
                    who: cc[i2].who,
                    strikes: 0u32,
                });
                assert(finalst.members@[m1.len() + k2] == Member {
                    who: cc[i2].who,
                    strikes: 0u32,
                });
            }
            assert forall|i2: int| 0 <= i2 < cc.len() && !is_approved(
                vv,
                (#[trigger] cc[i2]).who,
            ) implies finalst.suspended_candidates@.contains(cc[i2]) by {
                lemma_rejected_contains(cc, vv, i2);
                let k2 = choose|k2: int| 0 <= k2 < rej.len() && rej[k2] == cc[i2];
                assert(finalst.suspended_candidates@[oldst.suspended_candidates@.len() + k2]
                    == cc[i2]);
            }
            if defender_struck(oldst) {
                let d = oldst.defender->Some_0;
                assert(!in_members(finalst.members@, d)) by {
                    if in_members(m1, d) {
                        lemma_members_remove(
                            oldst.members@,
                            member_index(oldst.members@, d),
                        );
                    }
                    if in_members(approved_members(cc, vv), d) {
                        assert(has_bid(cc, d));
                        let di = member_index(oldst.members@, d);
                        assert(oldst.members@[di].who == d);
                        assert(in_members(oldst.members@, d));
                    }
                }
                assert(in_list(finalst.suspended_members@, d)) by {
                    assert(sm1[oldst.suspended_members@.len() as int] == d);
                }
            }
        }
        Ok(())
    }
}

} // verus!
