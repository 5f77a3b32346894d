//! Vote tallying: the majority rule over candidate and defender ballots.
//!
//! A candidate (or the defender) is approved iff strictly more Approve
//! than Reject ballots were cast; a tie counts as rejection, and
//! abstentions do not count at all.

use vstd::prelude::*;
use crate::types::{Ballot, DefenderBallot};

verus! {

/// Ballots on candidate `c` with the given verdict.
pub open spec fn vote_count(s: Seq<Ballot>, c: u64, approve: bool) -> int
    decreases s.len(),
{
    if s.len() == 0 {
        0
    } else {
        vote_count(s.drop_last(), c, approve) + if s.last().candidate == c
            && s.last().approve == approve {
            1int
        } else {
            0int
        }
    }
}

/// The majority rule: strictly more approvals than rejections.
pub open spec fn is_approved(s: Seq<Ballot>, c: u64) -> bool {
    vote_count(s, c, true) > vote_count(s, c, false)
}

/// Voter `v` has an outstanding ballot on candidate `c`.
pub open spec fn has_ballot(s: Seq<Ballot>, c: u64, v: u64) -> bool {
    exists|i: int| 0 <= i < s.len() && s[i].candidate == c && s[i].voter == v
}

/// The index of that ballot (meaningful when present).
pub open spec fn ballot_index(s: Seq<Ballot>, c: u64, v: u64) -> int {
    choose|i: int| 0 <= i < s.len() && s[i].candidate == c && s[i].voter == v
}

/// At most one ballot per (candidate, voter) pair.
pub open spec fn ballots_uniq(s: Seq<Ballot>) -> bool {
    forall|i: int, j: int| 0 <= i < j < s.len()
        ==> !(s[i].candidate == s[j].candidate && s[i].voter == s[j].voter)
}

/// Defender ballots with the given verdict.
pub open spec fn dvote_count(s: Seq<DefenderBallot>, approve: bool) -> int
    decreases s.len(),
{
    if s.len() == 0 {
        0
    } else {
        dvote_count(s.drop_last(), approve) + if s.last().approve == approve {
            1int
        } else {
            0int
        }
    }
}

/// The defender survives the challenge iff strictly more approvals.
pub open spec fn defender_approved(s: Seq<DefenderBallot>) -> bool {
    dvote_count(s, true) > dvote_count(s, false)
}

/// Voter `v` has an outstanding defender ballot.
pub open spec fn has_dballot(s: Seq<DefenderBallot>, v: u64) -> bool {
    exists|i: int| 0 <= i < s.len() && s[i].voter == v
}

/// The index of that ballot (meaningful when present).
pub open spec fn dballot_index(s: Seq<DefenderBallot>, v: u64) -> int {
    choose|i: int| 0 <= i < s.len() && s[i].voter == v
}

/// At most one defender ballot per voter.
pub open spec fn dballots_uniq(s: Seq<DefenderBallot>) -> bool {
    forall|i: int, j: int| 0 <= i < j < s.len() ==> s[i].voter != s[j].voter
}

/// Counts never exceed the number of ballots.
pub proof fn lemma_vote_count_bounds(s: Seq<Ballot>, c: u64)
    ensures
        0 <= vote_count(s, c, true),
        0 <= vote_count(s, c, false),
        vote_count(s, c, true) + vote_count(s, c, false) <= s.len(),
    decreases s.len(),
{
    if s.len() > 0 {
        lemma_vote_count_bounds(s.drop_last(), c);
    }
}

/// Count both verdicts for candidate `c`.
pub fn tally(votes: &Vec<Ballot>, c: u64) -> (r: (usize, usize))
    ensures
        r.0 == vote_count(votes@, c, true),
        r.1 == vote_count(votes@, c, false),
{
    let n = votes.len();
    let mut ayes: usize = 0;
    let mut nays: usize = 0;
    let mut i: usize = 0;
    proof {
        assert(votes@.take(0) =~= Seq::<Ballot>::empty());
    }
    while i < n
        invariant
            n == votes@.len(),
            i <= n,
            ayes == vote_count(votes@.take(i as int), c, true),
            nays == vote_count(votes@.take(i as int), c, false),
        decreases n - i,
    {
        proof {
            lemma_vote_count_bounds(votes@.take(i as int), c);
            assert(votes@.take(i as int).len() == i);
            assert(votes@.take(i + 1int).drop_last() =~= votes@.take(i as int));
            assert(votes@.take(i + 1int).last() == votes@[i as int]);
        }
        let b = votes[i];
        if b.candidate == c {
            if b.approve {
                ayes = ayes + 1;
            } else {
                nays = nays + 1;
            }
        }
        i = i + 1;
    }
    proof {
        assert(votes@.take(n as int) =~= votes@);
    }
    (ayes, nays)
}

/// Counts never exceed the number of ballots.
pub proof fn lemma_dvote_count_bounds(s: Seq<DefenderBallot>)
    ensures
        0 <= dvote_count(s, true),
        0 <= dvote_count(s, false),
        dvote_count(s, true) + dvote_count(s, false) <= s.len(),
    decreases s.len(),
{
    if s.len() > 0 {
        lemma_dvote_count_bounds(s.drop_last());
    }
}

/// Count both verdicts on the defender.
pub fn tally_defender(votes: &Vec<DefenderBallot>) -> (r: (usize, usize))
    ensures
        r.0 == dvote_count(votes@, true),
        r.1 == dvote_count(votes@, false),
{
    let n = votes.len();
    let mut ayes: usize = 0;
    let mut nays: usize = 0;
    let mut i: usize = 0;
    proof {
        assert(votes@.take(0) =~= Seq::<DefenderBallot>::empty());
    }
    while i < n
        invariant
            n == votes@.len(),
            i <= n,
            ayes == dvote_count(votes@.take(i as int), true),
            nays == dvote_count(votes@.take(i as int), false),
        decreases n - i,
    {
        proof {
            lemma_dvote_count_bounds(votes@.take(i as int));
            assert(votes@.take(i as int).len() == i);
            assert(votes@.take(i + 1int).drop_last() =~= votes@.take(i as int));
            assert(votes@.take(i + 1int).last() == votes@[i as int]);
        }
        let b = votes[i];
        if b.approve {
            ayes = ayes + 1;
        } else {
            nays = nays + 1;
        }
        i = i + 1;
    }
    proof {
        assert(votes@.take(n as int) =~= votes@);
    }
    (ayes, nays)
}

} // verus!
