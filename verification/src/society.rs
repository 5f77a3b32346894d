//! The society state machine.
//!
//! All state lives in one [`Society`] value; every operation is a method
//! that either fully applies or returns an [`Error`] and leaves the
//! state untouched. The structural invariant [`Society::inv`] ties the
//! lifecycle sets together (an account is in at most one of them) and
//! carries the fund-accounting equation: what the ledger holds reserved
//! for an account is exactly the deposit locked by that account's
//! outstanding bid, candidacy or suspended candidacy.

use vstd::prelude::*;
use crate::ledger::Ledger;
use crate::pool::{
    bids_sorted, bids_uniq, dep_amt, dep_of, has_bid, lemma_dep_insert, lemma_dep_lookup,
    lemma_dep_nonneg, lemma_dep_remove,
};
use crate::registry::{
    in_list, in_members, in_vouching, entries_sorted, list_uniq, members_uniq,
    payouts_uniq, vouching_uniq, lemma_members_push, lemma_vouching_push, lemma_vouching_remove,
};
use crate::voting::{ballot_index, ballots_uniq, dballot_index, dballots_uniq, has_ballot, has_dballot};
use crate::types::{
    Ballot, Bid, BidKind, Config, DefenderBallot, Error, Member, Origin, PayoutQueue, VouchEntry,
    VouchingStatus,
};

verus! {

/// First position whose bid out-values `v`: where a new bid of value
/// `v` lands so that the pool stays ascending and earlier equal bids
/// keep their precedence.
pub open spec fn insert_pos_from(s: Seq<Bid>, v: u64, i: int) -> int
    decreases s.len() - i,
{
    if i < 0 || i >= s.len() {
        i
    } else if s[i].value > v {
        i
    } else {
        insert_pos_from(s, v, i + 1)
    }
}

/// Position a bid of value `v` takes in the pool `s`.
pub open spec fn insert_pos(s: Seq<Bid>, v: u64) -> int {
    insert_pos_from(s, v, 0)
}

/// A found-by-scan position is the spec one.
pub proof fn lemma_insert_pos(s: Seq<Bid>, v: u64, k: int, i: int)
    requires
        0 <= k <= i <= s.len(),
        forall|j: int| k <= j < i ==> s[j].value <= v,
        i == s.len() || s[i].value > v,
    ensures
        insert_pos_from(s, v, k) == i,
    decreases i - k,
{
    if k < i {
        lemma_insert_pos(s, v, k + 1, i);
    }
}

/// The index of `w`'s bid in `s` (meaningful when present).
pub open spec fn bid_index(s: Seq<Bid>, w: u64) -> int {
    choose|i: int| 0 <= i < s.len() && s[i].who == w
}

/// The index of `w`'s sponsorship record (meaningful when present).
pub open spec fn vouch_index(s: Seq<VouchEntry>, w: u64) -> int {
    choose|i: int| 0 <= i < s.len() && s[i].sponsor == w
}

/// Find the bid of `w` in a pool.
pub(crate) fn find_bid_in(v: &Vec<Bid>, w: u64) -> (r: Option<usize>)
    ensures
        match r {
            Some(i) => i < v@.len() && v@[i as int].who == w && has_bid(v@, w),
            None => !has_bid(v@, w),
        },
{
    let n = v.len();
    let mut i: usize = 0;
    while i < n
        invariant
            n == v@.len(),
            i <= n,
            forall|j: int| 0 <= j < i ==> v@[j].who != w,
        decreases n - i,
    {
        if v[i].who == w {
            return Some(i);
        }
        i = i + 1;
    }
    None
}

/// Find the registry row of member `w`.
pub(crate) fn find_member_in(v: &Vec<Member>, w: u64) -> (r: Option<usize>)
    ensures
        match r {
            Some(i) => i < v@.len() && v@[i as int].who == w && in_members(v@, w),
            None => !in_members(v@, w),
        },
{
    let n = v.len();
    let mut i: usize = 0;
    while i < n
        invariant
            n == v@.len(),
            i <= n,
            forall|j: int| 0 <= j < i ==> v@[j].who != w,
        decreases n - i,
    {
        if v[i].who == w {
            return Some(i);
        }
        i = i + 1;
    }
    None
}

/// Find `w` in a plain account list.
pub(crate) fn find_in_list(v: &Vec<u64>, w: u64) -> (r: Option<usize>)
    ensures
        match r {
            Some(i) => i < v@.len() && v@[i as int] == w && in_list(v@, w),
            None => !in_list(v@, w),
        },
{
    let n = v.len();
    let mut i: usize = 0;
    while i < n
        invariant
            n == v@.len(),
            i <= n,
            forall|j: int| 0 <= j < i ==> v@[j] != w,
        decreases n - i,
    {
        if v[i] == w {
            return Some(i);
        }
        i = i + 1;
    }
    None
}

/// Find the sponsorship record of `w`.
pub(crate) fn find_vouch_in(v: &Vec<VouchEntry>, w: u64) -> (r: Option<usize>)
    ensures
        match r {
            Some(i) => i < v@.len() && v@[i as int].sponsor == w && in_vouching(v@, w),
            None => !in_vouching(v@, w),
        },
{
    let n = v.len();
    let mut i: usize = 0;
    while i < n
        invariant
            n == v@.len(),
            i <= n,
            forall|j: int| 0 <= j < i ==> v@[j].sponsor != w,
        decreases n - i,
    {
        if v[i].sponsor == w {
            return Some(i);
        }
        i = i + 1;
    }
    None
}

/// The fixed name [`Society::setup_society`] founds its society under.
pub open spec fn default_society_name() -> Seq<u8> {
    // The bytes of "benchmarking-society".
    seq![
        98u8, 101u8, 110u8, 99u8, 104u8, 109u8, 97u8, 114u8, 107u8, 105u8,
        110u8, 103u8, 45u8, 115u8, 111u8, 99u8, 105u8, 101u8, 116u8, 121u8,
    ]
}

/// That name as bytes.
fn default_name_bytes() -> (r: Vec<u8>)
    ensures
        r@ == default_society_name(),
{
    let mut r: Vec<u8> = Vec::new();
    r.push(98u8);
    r.push(101u8);
    r.push(110u8);
    r.push(99u8);
    r.push(104u8);
    r.push(109u8);
    r.push(97u8);
    r.push(114u8);
    r.push(107u8);
    r.push(105u8);
    r.push(110u8);
    r.push(103u8);
    r.push(45u8);
    r.push(115u8);
    r.push(111u8);
    r.push(99u8);
    r.push(105u8);
    r.push(101u8);
    r.push(116u8);
    r.push(121u8);
    proof {
        assert(r@ =~= default_society_name());
    }
    r
}

/// The whole society: configuration, lifecycle sets, ballots, funds.
pub struct Society {
    /// Valid only while `founded` holds.
    pub config: Config,
    pub founded: bool,
    /// Last period boundary already processed.
    pub period: u64,
    /// Pending bids, ascending by value, one per account.
    pub bids: Vec<Bid>,
    pub members: Vec<Member>,
    /// This round's candidate slate.
    pub candidates: Vec<Bid>,
    pub votes: Vec<Ballot>,
    pub defender: Option<u64>,
    pub defender_votes: Vec<DefenderBallot>,
    pub suspended_members: Vec<u64>,
    pub suspended_candidates: Vec<Bid>,
    pub vouching: Vec<VouchEntry>,
    pub payouts: Vec<PayoutQueue>,
    /// The shared fund backing payouts, fed by forfeited deposits and
    /// donations.
    pub pot: u64,
    pub ledger: Ledger,
}

impl Society {
    pub open spec fn is_bidder(self, w: u64) -> bool {
        has_bid(self.bids@, w)
    }

    pub open spec fn is_member(self, w: u64) -> bool {
        in_members(self.members@, w)
    }

    pub open spec fn is_candidate(self, w: u64) -> bool {
        has_bid(self.candidates@, w)
    }

    pub open spec fn is_suspended_member(self, w: u64) -> bool {
        in_list(self.suspended_members@, w)
    }

    pub open spec fn is_suspended_candidate(self, w: u64) -> bool {
        has_bid(self.suspended_candidates@, w)
    }

    /// Sponsor `w` is banned from vouching.
    pub open spec fn is_banned(self, w: u64) -> bool {
        exists|i: int| 0 <= i < self.vouching@.len()
            && self.vouching@[i].sponsor == w
            && self.vouching@[i].status == VouchingStatus::Banned
    }

    /// Account `w` already takes part in the society in some role, so a
    /// fresh bid from it is refused.
    pub open spec fn is_engaged(self, w: u64) -> bool {
        self.is_bidder(w) || self.is_member(w) || self.is_candidate(w)
            || self.is_suspended_member(w) || self.is_suspended_candidate(w)
    }

    /// The deposit the society owes back to `w`: what `w`'s pending
    /// bid, candidacy or suspended candidacy has locked.
    pub open spec fn owed(self, w: u64) -> int {
        dep_of(self.bids@, w) + dep_of(self.candidates@, w)
            + dep_of(self.suspended_candidates@, w)
    }

    /// The state invariant, preserved by every operation.
    pub open spec fn inv(self) -> bool {
        &&& self.ledger.wf()
        &&& self.ledger.total() + self.pot <= u64::MAX
        &&& bids_uniq(self.bids@)
        &&& bids_sorted(self.bids@)
        &&& bids_uniq(self.candidates@)
        &&& bids_uniq(self.suspended_candidates@)
        &&& members_uniq(self.members@)
        &&& list_uniq(self.suspended_members@)
        &&& vouching_uniq(self.vouching@)
        &&& payouts_uniq(self.payouts@)
        &&& ballots_uniq(self.votes@)
        &&& dballots_uniq(self.defender_votes@)
        &&& forall|k: int| 0 <= k < self.payouts@.len()
            ==> entries_sorted(#[trigger] self.payouts@[k].entries@)
        // An account is in at most one lifecycle state at a time.
        &&& forall|w: u64| #[trigger] in_members(self.members@, w)
            ==> !has_bid(self.candidates@, w) && !in_list(self.suspended_members@, w)
                && !has_bid(self.suspended_candidates@, w) && !has_bid(self.bids@, w)
        &&& forall|w: u64| #[trigger] has_bid(self.candidates@, w)
            ==> !in_list(self.suspended_members@, w)
                && !has_bid(self.suspended_candidates@, w) && !has_bid(self.bids@, w)
        &&& forall|w: u64| #[trigger] in_list(self.suspended_members@, w)
            ==> !has_bid(self.suspended_candidates@, w) && !has_bid(self.bids@, w)
        &&& forall|w: u64| #[trigger] has_bid(self.suspended_candidates@, w)
            ==> !has_bid(self.bids@, w)
        // Fund accounting: reservations equal outstanding deposits.
        &&& forall|w: u64| #[trigger] self.ledger.reserved(w) == self.owed(w)
        // Active members stay below the strike threshold.
        &&& self.founded ==> self.config.max_strikes >= 1
        &&& self.founded ==> forall|i: int| 0 <= i < self.members@.len()
            ==> (#[trigger] self.members@[i]).strikes < self.config.max_strikes
        &&& match self.defender {
            Some(d) => in_members(self.members@, d),
            None => true,
        }
        // Before founding (and after dissolution) only the ledger holds
        // anything.
        &&& !self.founded ==> self.bids@.len() == 0 && self.members@.len() == 0
            && self.candidates@.len() == 0 && self.votes@.len() == 0
            && self.defender is None && self.defender_votes@.len() == 0
            && self.suspended_members@.len() == 0 && self.suspended_candidates@.len() == 0
            && self.vouching@.len() == 0 && self.payouts@.len() == 0 && self.pot == 0
    }

    /// A society with no founder, no participants and an empty ledger.
    pub fn new() -> (r: Society)
        ensures
            r.inv(),
            !r.founded,
            r.period == 0,
            r.pot == 0,
            r.ledger.total() == 0,
            forall|w: u64| #[trigger] r.ledger.free(w) == 0,
            r.bids@.len() == 0,
            r.members@.len() == 0,
    {
        let r = Society {
            config: Config {
                founder: 0,
                max_members: 0,
                max_intake: 0,
                max_strikes: 0,
                candidate_deposit: 0,
                ban_rejected_sponsors: false,
                name: Vec::new(),
            },
            founded: false,
            period: 0,
            bids: Vec::new(),
            members: Vec::new(),
            candidates: Vec::new(),
            votes: Vec::new(),
            defender: None,
            defender_votes: Vec::new(),
            suspended_members: Vec::new(),
            suspended_candidates: Vec::new(),
            vouching: Vec::new(),
            payouts: Vec::new(),
            pot: 0,
            ledger: Ledger::new(),
        };
        proof {
            assert forall|w: u64| #[trigger] r.ledger.reserved(w) == r.owed(w) by {
                assert(r.ledger.reserved(w) == 0);
                assert(dep_of(r.bids@, w) == 0);
                assert(dep_of(r.candidates@, w) == 0);
                assert(dep_of(r.suspended_candidates@, w) == 0);
            }
        }
        r
    }

    /// Give `who` free balance to take part with. The bound is a
    /// machine limit: all funds together must fit a `u64`.
    pub fn endow(&mut self, who: u64, amount: u64)
        requires
            old(self).inv(),
            old(self).ledger.total() + old(self).pot + amount <= u64::MAX,
        ensures
            final(self).inv(),
            final(self).ledger.free(who) == old(self).ledger.free(who) + amount,
            forall|x: u64| x != who
                ==> #[trigger] final(self).ledger.free(x) == old(self).ledger.free(x),
            forall|x: u64| #[trigger] final(self).ledger.reserved(x)
                == old(self).ledger.reserved(x),
            final(self).ledger.total() == old(self).ledger.total() + amount,
            final(self).config == old(self).config,
            final(self).founded == old(self).founded,
            final(self).period == old(self).period,
            final(self).bids == old(self).bids,
            final(self).members == old(self).members,
            final(self).candidates == old(self).candidates,
            final(self).votes == old(self).votes,
            final(self).defender == old(self).defender,
            final(self).defender_votes == old(self).defender_votes,
            final(self).suspended_members == old(self).suspended_members,
            final(self).suspended_candidates == old(self).suspended_candidates,
            final(self).vouching == old(self).vouching,
            final(self).payouts == old(self).payouts,
            final(self).pot == old(self).pot,
    {
        self.ledger.credit(who, amount);
    }

    /// Establish the society: record the configuration and seat the
    /// founder as its first member. Only the founder-setting authority
    /// (or root) may call this, and only once.
    ///
    /// A society needs `max_strikes >= 1` so that a fresh member's zero
    /// strikes are below the threshold.
    pub fn found_society(
        &mut self,
        origin: Origin,
        founder: u64,
        max_members: u64,
        max_intake: u64,
        max_strikes: u32,
        candidate_deposit: u64,
        name: Vec<u8>,
    ) -> (r: Result<(), Error>)
        requires
            old(self).inv(),
            max_strikes >= 1,
        ensures
            final(self).inv(),
            r is Ok <==> (origin == Origin::FounderSet || origin == Origin::Root)
                && !old(self).founded,
            r == Err::<(), Error>(Error::BadOrigin)
                <==> origin != Origin::FounderSet && origin != Origin::Root,
            r == Err::<(), Error>(Error::AlreadyFounded)
                <==> (origin == Origin::FounderSet || origin == Origin::Root)
                    && old(self).founded,
            r is Err ==> *final(self) == *old(self),
            r is Ok ==> final(self).founded
                && final(self).config.founder == founder
                && final(self).config.max_members == max_members
                && final(self).config.max_intake == max_intake
                && final(self).config.max_strikes == max_strikes
                && final(self).config.candidate_deposit == candidate_deposit
                && final(self).members@ == seq![Member { who: founder, strikes: 0u32 }]
                && final(self).bids == old(self).bids
                && final(self).ledger == old(self).ledger
                && final(self).pot == old(self).pot
                && final(self).period == old(self).period
                && final(self).config.name@ == name@
                && final(self).config.ban_rejected_sponsors == false
                && final(self).defender is None
                && final(self).candidates@.len() == 0
                && final(self).votes@.len() == 0
                && final(self).defender_votes@.len() == 0
                && final(self).suspended_members@.len() == 0
                && final(self).suspended_candidates@.len() == 0
                && final(self).vouching@.len() == 0
                && final(self).payouts@.len() == 0,
    {
        match origin {
            Origin::FounderSet | Origin::Root => {},
            _ => {
                return Err(Error::BadOrigin);
            },
        }
        if self.founded {
            return Err(Error::AlreadyFounded);
        }
        self.config = Config {
            founder,
            max_members,
            max_intake,
            max_strikes,
            candidate_deposit,
            ban_rejected_sponsors: false,
            name,
        };
        self.founded = true;
        proof {
            lemma_members_push(self.members@, Member { who: founder, strikes: 0u32 });
        }
        self.members.push(Member { who: founder, strikes: 0 });
        proof {
            assert(self.members@ =~= seq![Member { who: founder, strikes: 0u32 }]);
            assert forall|w: u64| #[trigger] in_members(self.members@, w)
                implies !has_bid(self.candidates@, w) && !in_list(self.suspended_members@, w)
                    && !has_bid(self.suspended_candidates@, w) && !has_bid(self.bids@, w) by {
                if has_bid(self.bids@, w) {
                    let i = choose|i: int| 0 <= i < self.bids@.len() && self.bids@[i].who == w;
                }
            }
        }
        Ok(())
    }

    /// Stand up a small demonstration society under the fixed name
    /// [`default_society_name`]: five seats, an intake of three per
    /// period, three strikes, and the given candidate deposit, with the
    /// given account as founder.
    pub fn setup_society(&mut self, founder: u64, candidate_deposit: u64) -> (r: Result<
        (),
        Error,
    >)
        requires
            old(self).inv(),
        ensures
            final(self).inv(),
            r is Ok <==> !old(self).founded,
            r is Err ==> *final(self) == *old(self) && r == Err::<(), Error>(
                Error::AlreadyFounded,
            ),
            r is Ok ==> final(self).founded
                && final(self).config.founder == founder
                && final(self).config.max_members == 5
                && final(self).config.max_intake == 3
                && final(self).config.max_strikes == 3
                && final(self).config.candidate_deposit == candidate_deposit
                && final(self).members@ == seq![Member { who: founder, strikes: 0u32 }]
                && final(self).config.name@ == default_society_name()
                && final(self).config.ban_rejected_sponsors == false
                && final(self).bids == old(self).bids
                && final(self).ledger == old(self).ledger
                && final(self).pot == old(self).pot
                && final(self).period == old(self).period
                && final(self).defender is None
                && final(self).candidates@.len() == 0
                && final(self).votes@.len() == 0
                && final(self).vouching@.len() == 0
                && final(self).payouts@.len() == 0
                && final(self).suspended_members@.len() == 0
                && final(self).suspended_candidates@.len() == 0,
    {
        let name = default_name_bytes();
        self.found_society(Origin::FounderSet, founder, 5, 3, 3, candidate_deposit, name)
    }

    /// Bootstrap variant of the founding call for the suspension-
    /// judgement authority (or root): the same preconditions and effect
    /// as [`Society::found_society`], under the other privileged
    /// origin.
    pub fn found(
        &mut self,
        origin: Origin,
        founder: u64,
        max_members: u64,
        max_intake: u64,
        max_strikes: u32,
        candidate_deposit: u64,
        name: Vec<u8>,
    ) -> (r: Result<(), Error>)
        requires
            old(self).inv(),
            max_strikes >= 1,
        ensures
            final(self).inv(),
            r is Ok <==> (origin == Origin::SuspensionJudgement || origin == Origin::Root)
                && !old(self).founded,
            r == Err::<(), Error>(Error::BadOrigin)
                <==> origin != Origin::SuspensionJudgement && origin != Origin::Root,
            r == Err::<(), Error>(Error::AlreadyFounded)
                <==> (origin == Origin::SuspensionJudgement || origin == Origin::Root)
                    && old(self).founded,
            r is Err ==> *final(self) == *old(self),
            r is Ok ==> final(self).founded
                && final(self).config.founder == founder
                && final(self).config.max_members == max_members
                && final(self).config.max_intake == max_intake
                && final(self).config.max_strikes == max_strikes
                && final(self).config.candidate_deposit == candidate_deposit
                && final(self).config.name@ == name@
                && final(self).config.ban_rejected_sponsors == false
                && final(self).members@ == seq![Member { who: founder, strikes: 0u32 }]
                && final(self).bids == old(self).bids
                && final(self).ledger == old(self).ledger
                && final(self).pot == old(self).pot
                && final(self).period == old(self).period
                && final(self).defender is None
                && final(self).candidates@.len() == 0
                && final(self).votes@.len() == 0
                && final(self).defender_votes@.len() == 0
                && final(self).suspended_members@.len() == 0
                && final(self).suspended_candidates@.len() == 0
                && final(self).vouching@.len() == 0
                && final(self).payouts@.len() == 0,
    {
        match origin {
            Origin::SuspensionJudgement | Origin::Root => {},
            _ => {
                return Err(Error::BadOrigin);
            },
        }
        self.found_society(
            Origin::FounderSet,
            founder,
            max_members,
            max_intake,
            max_strikes,
            candidate_deposit,
            name,
        )
    }

    /// Place a deposit-backed bid for membership at the asked `value`.
    /// The caller must be a fresh account — not bidding, not a member,
    /// candidate or suspendee, not a banned sponsor — and must have the
    /// configured deposit free; the deposit is reserved. The bid lands
    /// at the position that keeps the pool ascending by value, behind
    /// earlier bids of the same value.
    pub fn bid(&mut self, caller: u64, value: u64) -> (r: Result<(), Error>)
        requires
            old(self).inv(),
        ensures
            final(self).inv(),
            r == Err::<(), Error>(Error::NotFounded) <==> !old(self).founded,
            r == Err::<(), Error>(Error::AlreadyBidding) <==> old(self).founded
                && (old(self).is_engaged(caller) || old(self).is_banned(caller)),
            r == Err::<(), Error>(Error::InsufficientFunds) <==> old(self).founded
                && !old(self).is_engaged(caller) && !old(self).is_banned(caller)
                && old(self).ledger.free(caller) < old(self).config.candidate_deposit,
            r is Err ==> *final(self) == *old(self),
            r is Ok <==> old(self).founded && !old(self).is_engaged(caller)
                && !old(self).is_banned(caller)
                && old(self).ledger.free(caller) >= old(self).config.candidate_deposit,
            r is Ok ==> final(self).bids@ == old(self).bids@.insert(
                insert_pos(old(self).bids@, value),
                Bid {
                    who: caller,
                    kind: BidKind::Deposit(old(self).config.candidate_deposit),
                    value,
                },
            )
                && final(self).ledger.free(caller) == old(self).ledger.free(caller)
                    - old(self).config.candidate_deposit
                && final(self).ledger.reserved(caller) == old(self).ledger.reserved(caller)
                    + old(self).config.candidate_deposit
                && (forall|x: u64| x != caller
                    ==> #[trigger] final(self).ledger.free(x) == old(self).ledger.free(x))
                && (forall|x: u64| x != caller
                    ==> #[trigger] final(self).ledger.reserved(x) == old(self).ledger.reserved(x))
                && final(self).ledger.total() == old(self).ledger.total()
                && final(self).members == old(self).members
                && final(self).candidates == old(self).candidates
                && final(self).pot == old(self).pot
                && final(self).votes == old(self).votes
                && final(self).suspended_members == old(self).suspended_members
                && final(self).suspended_candidates == old(self).suspended_candidates
                && final(self).vouching == old(self).vouching
                && final(self).payouts == old(self).payouts
                && final(self).defender == old(self).defender
                && final(self).defender_votes == old(self).defender_votes
                && final(self).period == old(self).period
                && final(self).founded == old(self).founded
                && final(self).config == old(self).config,
    {
        if !self.founded {
            return Err(Error::NotFounded);
        }
        let engaged = {
            let b = find_bid_in(&self.bids, caller).is_some();
            let m = find_member_in(&self.members, caller).is_some();
            let c = find_bid_in(&self.candidates, caller).is_some();
            let sm = find_in_list(&self.suspended_members, caller).is_some();
            let sc = find_bid_in(&self.suspended_candidates, caller).is_some();
            b || m || c || sm || sc
        };
        let banned = match find_vouch_in(&self.vouching, caller) {
            Some(i) => {
                let st = self.vouching[i].status == VouchingStatus::Banned;
                proof {
                    if st {
                        assert(self.is_banned(caller));
                    } else if self.is_banned(caller) {
                        // A second record for the same sponsor would
                        // break uniqueness.
                        let j = choose|j: int| 0 <= j < self.vouching@.len()
                            && self.vouching@[j].sponsor == caller
                            && self.vouching@[j].status == VouchingStatus::Banned;
                        assert(j != i as int);
                        assert(false);
                    }
                }
                st
            },
            None => {
                proof {
                    if self.is_banned(caller) {
                        let j = choose|j: int| 0 <= j < self.vouching@.len()
                            && self.vouching@[j].sponsor == caller
                            && self.vouching@[j].status == VouchingStatus::Banned;
                        assert(in_vouching(self.vouching@, caller));
                    }
                }
                false
            },
        };
        if engaged || banned {
            return Err(Error::AlreadyBidding);
        }
        let deposit = self.config.candidate_deposit;
        let ok = self.ledger.reserve(caller, deposit);
        if !ok {
            return Err(Error::InsufficientFunds);
        }
        let b = Bid { who: caller, kind: BidKind::Deposit(deposit), value };
        // Find the stable insertion point.
        let n = self.bids.len();
        let mut i: usize = 0;
        while i < n && self.bids[i].value <= value
            invariant
                n == self.bids@.len(),
                i <= n,
                forall|j: int| 0 <= j < i ==> self.bids@[j].value <= value,
            decreases n - i,
        {
            i = i + 1;
        }
        proof {
            lemma_insert_pos(self.bids@, value, 0, i as int);
            lemma_dep_insert(self.bids@, i as int, b);
            let s = self.bids@;
            let t = s.insert(i as int, b);
            assert forall|p: int, q: int| 0 <= p < q < t.len() implies t[p].who != t[q].who
                && t[p].value <= t[q].value by {
                if q < i {
                    assert(t[p] == s[p] && t[q] == s[q]);
                } else if p >= i as int + 1 {
                    assert(t[p] == s[p - 1] && t[q] == s[q - 1]);
                } else if p == i && q > i {
                    assert(t[q] == s[q - 1]);
                    assert(!has_bid(s, caller));
                    assert(s[q - 1].who != caller) by {
                        if s[q - 1].who == caller {
                            assert(has_bid(s, caller));
                        }
                    }
                } else if q == i {
                    assert(t[p] == s[p]);
                    assert(s[p].who != caller) by {
                        if s[p].who == caller {
                            assert(has_bid(s, caller));
                        }
                    }
                } else {
                    // p < i < q, both sides of the new bid
                    assert(t[p] == s[p] && t[q] == s[q - 1]);
                    assert(s[p].who != caller) by {
                        if s[p].who == caller {
                            assert(has_bid(s, caller));
                        }
                    }
                    assert(s[q - 1].who != caller) by {
                        if s[q - 1].who == caller {
                            assert(has_bid(s, caller));
                        }
                    }
                }
            }
        }
        self.bids.insert(i, b);
        proof {
            let oldst = *old(self);
            assert forall|w: u64| #[trigger] self.ledger.reserved(w) == self.owed(w) by {
                assert(dep_of(self.bids@, w) == dep_of(oldst.bids@, w)
                    + if caller == w { dep_amt(b) } else { 0int });
            }
            assert forall|w: u64| #[trigger] in_members(self.members@, w)
                implies !has_bid(self.candidates@, w) && !in_list(self.suspended_members@, w)
                    && !has_bid(self.suspended_candidates@, w) && !has_bid(self.bids@, w) by {
                assert(!in_members(oldst.members@, caller));
            }
            assert forall|w: u64| #[trigger] has_bid(self.candidates@, w)
                implies !in_list(self.suspended_members@, w)
                    && !has_bid(self.suspended_candidates@, w) && !has_bid(self.bids@, w) by {
                assert(!has_bid(oldst.candidates@, caller));
            }
            assert forall|w: u64| #[trigger] in_list(self.suspended_members@, w)
                implies !has_bid(self.suspended_candidates@, w)
                    && !has_bid(self.bids@, w) by {
                assert(!in_list(oldst.suspended_members@, caller));
            }
            assert forall|w: u64| #[trigger] has_bid(self.suspended_candidates@, w)
                implies !has_bid(self.bids@, w) by {
                assert(!has_bid(oldst.suspended_candidates@, caller));
            }
        }
        Ok(())
    }

    /// Withdraw the caller's pending bid. A deposit bid's reservation
    /// is released back to the caller's free balance; a vouched bid
    /// releases its sponsor instead.
    pub fn unbid(&mut self, caller: u64) -> (r: Result<(), Error>)
        requires
            old(self).inv(),
        ensures
            final(self).inv(),
            r is Ok <==> old(self).is_bidder(caller),
            r is Err ==> *final(self) == *old(self) && r == Err::<(), Error>(Error::NotBidding),
            r is Ok ==> {
                let i = bid_index(old(self).bids@, caller);
                let b = old(self).bids@[i];
                &&& final(self).bids@ == old(self).bids@.remove(i)
                &&& match b.kind {
                    BidKind::Deposit(d) => final(self).ledger.free(caller)
                        == old(self).ledger.free(caller) + d
                        && final(self).ledger.reserved(caller)
                            == old(self).ledger.reserved(caller) - d
                        && (forall|x: u64| x != caller
                            ==> #[trigger] final(self).ledger.free(x) == old(self).ledger.free(x))
                        && (forall|x: u64| x != caller
                            ==> #[trigger] final(self).ledger.reserved(x)
                                == old(self).ledger.reserved(x))
                        && final(self).ledger.total() == old(self).ledger.total()
                        && final(self).vouching == old(self).vouching,
                    BidKind::Vouch(sp, _) => final(self).ledger == old(self).ledger
                        && !in_vouching(final(self).vouching@, sp)
                        && final(self).vouching@ == (if in_vouching(old(self).vouching@, sp) {
                            old(self).vouching@.remove(vouch_index(old(self).vouching@, sp))
                        } else {
                            old(self).vouching@
                        }),
                }
                &&& final(self).members == old(self).members
                &&& final(self).candidates == old(self).candidates
                &&& final(self).suspended_members == old(self).suspended_members
                &&& final(self).suspended_candidates == old(self).suspended_candidates
                &&& final(self).payouts == old(self).payouts
                &&& final(self).votes == old(self).votes
                &&& final(self).defender == old(self).defender
                &&& final(self).defender_votes == old(self).defender_votes
                &&& final(self).pot == old(self).pot
                &&& final(self).period == old(self).period
                &&& final(self).founded == old(self).founded
                &&& final(self).config == old(self).config
            },
    {
        let idx = match find_bid_in(&self.bids, caller) {
            Some(i) => i,
            None => {
                return Err(Error::NotBidding);
            },
        };
        proof {
            let i = bid_index(self.bids@, caller);
            assert(self.bids@[i].who == caller);
            // Unique bidders: the found index is the spec one.
            assert(i == idx as int);
            lemma_dep_lookup(self.bids@, idx as int);
            lemma_dep_remove(self.bids@, idx as int);
            lemma_dep_nonneg(self.candidates@);
            lemma_dep_nonneg(self.suspended_candidates@);
        }
        let b = self.bids[idx];
        let ghost oldbids = self.bids@;
        self.bids.remove(idx);
        match b.kind {
            BidKind::Deposit(d) => {
                proof {
                    assert(old(self).ledger.reserved(caller) >= d);
                }
                self.ledger.unreserve(caller, d);
            },
            BidKind::Vouch(sp, _tip) => {
                match find_vouch_in(&self.vouching, sp) {
                    Some(vi) => {
                        proof {
                            lemma_vouching_remove(self.vouching@, vi as int);
                            let k = vouch_index(old(self).vouching@, sp);
                            assert(old(self).vouching@[k].sponsor == sp);
                            assert(old(self).vouching@[vi as int].sponsor == sp);
                            assert(k == vi as int);
                        }
                        self.vouching.remove(vi);
                        proof {
                            if in_vouching(self.vouching@, sp) {
                                assert(false);
                            }
                        }
                    },
                    None => {},
                }
            },
        }
        proof {
            let oldst = *old(self);
            let i = idx as int;
            assert forall|w: u64| #[trigger] self.ledger.reserved(w) == self.owed(w) by {
                assert(dep_of(self.bids@, w) == dep_of(oldst.bids@, w)
                    - if oldst.bids@[i].who == w { dep_amt(oldst.bids@[i]) } else { 0int });
            }
            assert forall|w: u64| #[trigger] in_members(self.members@, w)
                implies !has_bid(self.candidates@, w) && !in_list(self.suspended_members@, w)
                    && !has_bid(self.suspended_candidates@, w) && !has_bid(self.bids@, w) by {
                if has_bid(self.bids@, w) {
                    assert(has_bid(oldst.bids@, w));
                }
            }
            assert forall|w: u64| #[trigger] has_bid(self.candidates@, w)
                implies !in_list(self.suspended_members@, w)
                    && !has_bid(self.suspended_candidates@, w) && !has_bid(self.bids@, w) by {
                if has_bid(self.bids@, w) {
                    assert(has_bid(oldst.bids@, w));
                }
            }
            assert forall|w: u64| #[trigger] in_list(self.suspended_members@, w)
                implies !has_bid(self.suspended_candidates@, w)
                    && !has_bid(self.bids@, w) by {
                if has_bid(self.bids@, w) {
                    assert(has_bid(oldst.bids@, w));
                }
            }
            assert forall|w: u64| #[trigger] has_bid(self.suspended_candidates@, w)
                implies !has_bid(self.bids@, w) by {
                if has_bid(self.bids@, w) {
                    assert(has_bid(oldst.bids@, w));
                }
            }
        }
        Ok(())
    }

    /// Sponsor a candidate: a current member stakes their standing (no
    /// deposit) behind `who`'s bid at `value`, against a `tip` owed to
    /// the sponsor if the candidate is admitted. One active vouch per
    /// sponsor; banned sponsors are refused.
    pub fn vouch(&mut self, sponsor: u64, who: u64, value: u64, tip: u64) -> (r: Result<
        (),
        Error,
    >)
        requires
            old(self).inv(),
        ensures
            final(self).inv(),
            r == Err::<(), Error>(Error::NotFounded) <==> !old(self).founded,
            r == Err::<(), Error>(Error::NotMember) <==> old(self).founded
                && !old(self).is_member(sponsor),
            r == Err::<(), Error>(Error::AlreadyVouching) <==> old(self).founded
                && old(self).is_member(sponsor) && in_vouching(old(self).vouching@, sponsor),
            r == Err::<(), Error>(Error::AlreadyBidding) <==> old(self).founded
                && old(self).is_member(sponsor) && !in_vouching(old(self).vouching@, sponsor)
                && old(self).is_engaged(who),
            r is Err ==> *final(self) == *old(self),
            r is Ok <==> old(self).founded && old(self).is_member(sponsor)
                && !in_vouching(old(self).vouching@, sponsor) && !old(self).is_engaged(who),
            r is Ok ==> final(self).bids@ == old(self).bids@.insert(
                insert_pos(old(self).bids@, value),
                Bid { who, kind: BidKind::Vouch(sponsor, tip), value },
            )
                && final(self).vouching@ == old(self).vouching@.push(
                VouchEntry { sponsor, status: VouchingStatus::Vouching },
            )
                && final(self).ledger == old(self).ledger
                && final(self).members == old(self).members
                && final(self).candidates == old(self).candidates
                && final(self).pot == old(self).pot
                && final(self).suspended_members == old(self).suspended_members
                && final(self).suspended_candidates == old(self).suspended_candidates
                && final(self).payouts == old(self).payouts
                && final(self).votes == old(self).votes
                && final(self).defender == old(self).defender
                && final(self).defender_votes == old(self).defender_votes
                && final(self).period == old(self).period
                && final(self).founded == old(self).founded
                && final(self).config == old(self).config,
    {
        if !self.founded {
            return Err(Error::NotFounded);
        }
        if find_member_in(&self.members, sponsor).is_none() {
            return Err(Error::NotMember);
        }
        if find_vouch_in(&self.vouching, sponsor).is_some() {
            return Err(Error::AlreadyVouching);
        }
        let engaged = {
            let b = find_bid_in(&self.bids, who).is_some();
            let m = find_member_in(&self.members, who).is_some();
            let c = find_bid_in(&self.candidates, who).is_some();
            let sm = find_in_list(&self.suspended_members, who).is_some();
            let sc = find_bid_in(&self.suspended_candidates, who).is_some();
            b || m || c || sm || sc
        };
        if engaged {
            return Err(Error::AlreadyBidding);
        }
        let b = Bid { who, kind: BidKind::Vouch(sponsor, tip), value };
        let n = self.bids.len();
        let mut i: usize = 0;
        while i < n && self.bids[i].value <= value
            invariant
                n == self.bids@.len(),
                i <= n,
                forall|j: int| 0 <= j < i ==> self.bids@[j].value <= value,
            decreases n - i,
        {
            i = i + 1;
        }
        proof {
            lemma_insert_pos(self.bids@, value, 0, i as int);
            lemma_dep_insert(self.bids@, i as int, b);
            let s = self.bids@;
            let t = s.insert(i as int, b);
            assert forall|p: int, q: int| 0 <= p < q < t.len() implies t[p].who != t[q].who
                && t[p].value <= t[q].value by {
                if q < i {
                    assert(t[p] == s[p] && t[q] == s[q]);
                } else if p >= i as int + 1 {
                    assert(t[p] == s[p - 1] && t[q] == s[q - 1]);
                } else if p == i && q > i {
                    assert(t[q] == s[q - 1]);
                    assert(s[q - 1].who != who) by {
                        if s[q - 1].who == who {
                            assert(has_bid(s, who));
                        }
                    }
                } else if q == i {
                    assert(t[p] == s[p]);
                    assert(s[p].who != who) by {
                        if s[p].who == who {
                            assert(has_bid(s, who));
                        }
                    }
                } else {
                    assert(t[p] == s[p] && t[q] == s[q - 1]);
                    assert(s[p].who != who) by {
                        if s[p].who == who {
                            assert(has_bid(s, who));
                        }
                    }
                    assert(s[q - 1].who != who) by {
                        if s[q - 1].who == who {
                            assert(has_bid(s, who));
                        }
                    }
                }
            }
            lemma_vouching_push(
                self.vouching@,
                VouchEntry { sponsor, status: VouchingStatus::Vouching },
            );
        }
        self.bids.insert(i, b);
        self.vouching.push(VouchEntry { sponsor, status: VouchingStatus::Vouching });
        proof {
            let oldst = *old(self);
            assert forall|w: u64| #[trigger] self.ledger.reserved(w) == self.owed(w) by {
                assert(dep_of(self.bids@, w) == dep_of(oldst.bids@, w)
                    + if who == w { dep_amt(b) } else { 0int });
                assert(dep_amt(b) == 0);
            }
            assert forall|w: u64| #[trigger] in_members(self.members@, w)
                implies !has_bid(self.candidates@, w) && !in_list(self.suspended_members@, w)
                    && !has_bid(self.suspended_candidates@, w) && !has_bid(self.bids@, w) by {
                assert(!in_members(oldst.members@, who));
            }
            assert forall|w: u64| #[trigger] has_bid(self.candidates@, w)
                implies !in_list(self.suspended_members@, w)
                    && !has_bid(self.suspended_candidates@, w) && !has_bid(self.bids@, w) by {
                assert(!has_bid(oldst.candidates@, who));
            }
            assert forall|w: u64| #[trigger] in_list(self.suspended_members@, w)
                implies !has_bid(self.suspended_candidates@, w)
                    && !has_bid(self.bids@, w) by {
                assert(!in_list(oldst.suspended_members@, who));
            }
            assert forall|w: u64| #[trigger] has_bid(self.suspended_candidates@, w)
                implies !has_bid(self.bids@, w) by {
                assert(!has_bid(oldst.suspended_candidates@, who));
            }
        }
        Ok(())
    }

    /// Withdraw a still-pending vouch by its position in the pool. Only
    /// the sponsor recorded on that bid may withdraw it; the sponsor is
    /// released to vouch again.
    pub fn unvouch(&mut self, sponsor: u64, pos: usize) -> (r: Result<(), Error>)
        requires
            old(self).inv(),
        ensures
            final(self).inv(),
            r is Ok <==> pos < old(self).bids@.len()
                && (old(self).bids@[pos as int].kind matches BidKind::Vouch(sp, _) && sp
                    == sponsor),
            r is Err ==> *final(self) == *old(self) && r == Err::<(), Error>(
                Error::NotVouchingOnBid,
            ),
            r is Ok ==> final(self).bids@ == old(self).bids@.remove(pos as int)
                && !in_vouching(final(self).vouching@, sponsor)
                && final(self).vouching@ == (if in_vouching(old(self).vouching@, sponsor) {
                    old(self).vouching@.remove(vouch_index(old(self).vouching@, sponsor))
                } else {
                    old(self).vouching@
                })
                && final(self).ledger == old(self).ledger
                && final(self).members == old(self).members
                && final(self).candidates == old(self).candidates
                && final(self).pot == old(self).pot
                && final(self).suspended_members == old(self).suspended_members
                && final(self).suspended_candidates == old(self).suspended_candidates
                && final(self).payouts == old(self).payouts
                && final(self).votes == old(self).votes
                && final(self).defender == old(self).defender
                && final(self).defender_votes == old(self).defender_votes
                && final(self).period == old(self).period
                && final(self).founded == old(self).founded
                && final(self).config == old(self).config,
    {
        if pos >= self.bids.len() {
            return Err(Error::NotVouchingOnBid);
        }
        let b = self.bids[pos];
        let matches_sponsor = match b.kind {
            BidKind::Vouch(sp, _) => sp == sponsor,
            BidKind::Deposit(_) => false,
        };
        if !matches_sponsor {
            return Err(Error::NotVouchingOnBid);
        }
        proof {
            lemma_dep_remove(self.bids@, pos as int);
        }
        self.bids.remove(pos);
        match find_vouch_in(&self.vouching, sponsor) {
            Some(vi) => {
                proof {
                    lemma_vouching_remove(self.vouching@, vi as int);
                    assert(self.vouching@[vi as int].sponsor == sponsor);
                    let k = vouch_index(old(self).vouching@, sponsor);
                    assert(old(self).vouching@[k].sponsor == sponsor);
                    assert(k == vi as int);
                }
                self.vouching.remove(vi);
                proof {
                    if in_vouching(self.vouching@, sponsor) {
                        assert(false);
                    }
                }
            },
            None => {},
        }
        proof {
            let oldst = *old(self);
            let i = pos as int;
            assert forall|w: u64| #[trigger] self.ledger.reserved(w) == self.owed(w) by {
                assert(dep_of(self.bids@, w) == dep_of(oldst.bids@, w)
                    - if oldst.bids@[i].who == w { dep_amt(oldst.bids@[i]) } else { 0int });
                assert(dep_amt(oldst.bids@[i]) == 0);
            }
            assert forall|w: u64| #[trigger] in_members(self.members@, w)
                implies !has_bid(self.candidates@, w) && !in_list(self.suspended_members@, w)
                    && !has_bid(self.suspended_candidates@, w) && !has_bid(self.bids@, w) by {
                if has_bid(self.bids@, w) {
                    assert(has_bid(oldst.bids@, w));
                }
            }
            assert forall|w: u64| #[trigger] has_bid(self.candidates@, w)
                implies !in_list(self.suspended_members@, w)
                    && !has_bid(self.suspended_candidates@, w) && !has_bid(self.bids@, w) by {
                if has_bid(self.bids@, w) {
                    assert(has_bid(oldst.bids@, w));
                }
            }
            assert forall|w: u64| #[trigger] in_list(self.suspended_members@, w)
                implies !has_bid(self.suspended_candidates@, w)
                    && !has_bid(self.bids@, w) by {
                if has_bid(self.bids@, w) {
                    assert(has_bid(oldst.bids@, w));
                }
            }
            assert forall|w: u64| #[trigger] has_bid(self.suspended_candidates@, w)
                implies !has_bid(self.bids@, w) by {
                if has_bid(self.bids@, w) {
                    assert(has_bid(oldst.bids@, w));
                }
            }
        }
        Ok(())
    }

    /// Cast (or change) a member's vote on a current candidate. The
    /// last ballot per (candidate, voter) pair before the tally wins.
    pub fn vote(&mut self, voter: u64, candidate: u64, approve: bool) -> (r: Result<(), Error>)
        requires
            old(self).inv(),
        ensures
            final(self).inv(),
            r == Err::<(), Error>(Error::NotMember) <==> !old(self).is_member(voter),
            r == Err::<(), Error>(Error::NotCandidate) <==> old(self).is_member(voter)
                && !old(self).is_candidate(candidate),
            r is Err ==> *final(self) == *old(self),
            r is Ok <==> old(self).is_member(voter) && old(self).is_candidate(candidate),
            r is Ok ==> {
                let b = Ballot { candidate, voter, approve };
                &&& final(self).votes@ == if has_ballot(old(self).votes@, candidate, voter) {
                    old(self).votes@.update(ballot_index(old(self).votes@, candidate, voter), b)
                } else {
                    old(self).votes@.push(b)
                }
                &&& final(self).bids == old(self).bids
                &&& final(self).members == old(self).members
                &&& final(self).candidates == old(self).candidates
                &&& final(self).ledger == old(self).ledger
                &&& final(self).pot == old(self).pot
                &&& final(self).defender_votes == old(self).defender_votes
                &&& final(self).suspended_members == old(self).suspended_members
                &&& final(self).suspended_candidates == old(self).suspended_candidates
                &&& final(self).vouching == old(self).vouching
                &&& final(self).payouts == old(self).payouts
                &&& final(self).defender == old(self).defender
                &&& final(self).period == old(self).period
                &&& final(self).founded == old(self).founded
                &&& final(self).config == old(self).config
            },
    {
        if find_member_in(&self.members, voter).is_none() {
            return Err(Error::NotMember);
        }
        if find_bid_in(&self.candidates, candidate).is_none() {
            return Err(Error::NotCandidate);
        }
        let b = Ballot { candidate, voter, approve };
        let n = self.votes.len();
        let mut i: usize = 0;
        while i < n
            invariant
                old(self).inv(),
                *self == *old(self),
                b == (Ballot { candidate, voter, approve }),
                old(self).is_member(voter),
                old(self).is_candidate(candidate),
                n == self.votes@.len(),
                i <= n,
                forall|j: int| 0 <= j < i
                    ==> !((#[trigger] self.votes@[j]).candidate == candidate
                        && self.votes@[j].voter == voter),
            decreases n - i,
        {
            if self.votes[i].candidate == candidate && self.votes[i].voter == voter {
                proof {
                    assert(has_ballot(self.votes@, candidate, voter));
                    let k = ballot_index(self.votes@, candidate, voter);
                    assert(self.votes@[k].candidate == candidate
                        && self.votes@[k].voter == voter);
                    assert(forall|j: int| 0 <= j < i
                        ==> !((#[trigger] self.votes@[j]).candidate == candidate
                            && self.votes@[j].voter == voter));
                }
                self.votes.set(i, b);
                proof {
                    let olds = old(self).votes@;
                    assert(ballots_uniq(olds));
                    let k = ballot_index(olds, candidate, voter);
                    assert(olds[k].candidate == candidate && olds[k].voter == voter);
                    assert(olds[i as int].candidate == candidate
                        && olds[i as int].voter == voter);
                    if k < i as int {
                        assert(!(olds[k].candidate == olds[i as int].candidate
                            && olds[k].voter == olds[i as int].voter));
                        assert(false);
                    } else if k > i as int {
                        assert(!(olds[i as int].candidate == olds[k].candidate
                            && olds[i as int].voter == olds[k].voter));
                        assert(false);
                    }
                    let t = self.votes@;
                    assert(t == olds.update(i as int, b));
                    assert(t.len() == olds.len());
                    assert forall|p: int, q: int| 0 <= p < q < t.len()
                        implies !((#[trigger] t[p]).candidate == (#[trigger] t[q]).candidate
                            && t[p].voter == t[q].voter) by {
                        if p == i as int {
                            assert(t[p] == b);
                            assert(b.candidate == candidate && b.voter == voter);
                            assert(t[q] == olds[q]);
                            assert(!(olds[i as int].candidate == olds[q].candidate
                                && olds[i as int].voter == olds[q].voter));
                        } else if q == i as int {
                            assert(t[q] == b);
                            assert(b.candidate == candidate && b.voter == voter);
                            assert(t[p] == olds[p]);
                            assert(!(olds[p].candidate == candidate && olds[p].voter == voter));
                        } else {
                            assert(t[p] == olds[p] && t[q] == olds[q]);
                            assert(!(olds[p].candidate == olds[q].candidate
                                && olds[p].voter == olds[q].voter));
                        }
                    }
                }
                return Ok(());
            }
            i = i + 1;
        }
        proof {
            if has_ballot(self.votes@, candidate, voter) {
                let k = choose|k: int| 0 <= k < self.votes@.len()
                    && self.votes@[k].candidate == candidate && self.votes@[k].voter == voter;
                assert(false);
            }
        }
        self.votes.push(b);
        proof {
            let t = self.votes@;
            let olds = old(self).votes@;
            assert forall|p: int, q: int| 0 <= p < q < t.len()
                implies !((#[trigger] t[p]).candidate == (#[trigger] t[q]).candidate
                    && t[p].voter == t[q].voter) by {
                if q == olds.len() {
                    assert(t[p] == olds[p]);
                } else {
                    assert(t[p] == olds[p] && t[q] == olds[q]);
                }
            }
        }
        Ok(())
    }

    /// Cast (or change) a member's vote on the current defender. The
    /// last ballot per voter before the tally wins.
    pub fn defender_vote(&mut self, voter: u64, approve: bool) -> (r: Result<(), Error>)
        requires
            old(self).inv(),
        ensures
            final(self).inv(),
            r == Err::<(), Error>(Error::NotMember) <==> !old(self).is_member(voter),
            r == Err::<(), Error>(Error::NoDefender) <==> old(self).is_member(voter)
                && old(self).defender is None,
            r is Err ==> *final(self) == *old(self),
            r is Ok <==> old(self).is_member(voter) && old(self).defender is Some,
            r is Ok ==> {
                let b = DefenderBallot { voter, approve };
                &&& final(self).defender_votes@ == if has_dballot(
                    old(self).defender_votes@,
                    voter,
                ) {
                    old(self).defender_votes@.update(
                        dballot_index(old(self).defender_votes@, voter),
                        b,
                    )
                } else {
                    old(self).defender_votes@.push(b)
                }
                &&& final(self).votes == old(self).votes
                &&& final(self).members == old(self).members
                &&& final(self).ledger == old(self).ledger
                &&& final(self).pot == old(self).pot
                &&& final(self).bids == old(self).bids
                &&& final(self).candidates == old(self).candidates
                &&& final(self).suspended_members == old(self).suspended_members
                &&& final(self).suspended_candidates == old(self).suspended_candidates
                &&& final(self).vouching == old(self).vouching
                &&& final(self).payouts == old(self).payouts
                &&& final(self).defender == old(self).defender
                &&& final(self).period == old(self).period
                &&& final(self).founded == old(self).founded
                &&& final(self).config == old(self).config
            },
    {
        if find_member_in(&self.members, voter).is_none() {
            return Err(Error::NotMember);
        }
        if self.defender.is_none() {
            return Err(Error::NoDefender);
        }
        let b = DefenderBallot { voter, approve };
        let n = self.defender_votes.len();
        let mut i: usize = 0;
        while i < n
            invariant
                old(self).inv(),
                *self == *old(self),
                b == (DefenderBallot { voter, approve }),
                old(self).is_member(voter),
                old(self).defender is Some,
                n == self.defender_votes@.len(),
                i <= n,
                forall|j: int| 0 <= j < i
                    ==> (#[trigger] self.defender_votes@[j]).voter != voter,
            decreases n - i,
        {
            if self.defender_votes[i].voter == voter {
                proof {
                    assert(has_dballot(self.defender_votes@, voter));
                }
                self.defender_votes.set(i, b);
                proof {
                    let olds = old(self).defender_votes@;
                    assert(dballots_uniq(olds));
                    let k = dballot_index(olds, voter);
                    assert(olds[k].voter == voter);
                    assert(olds[i as int].voter == voter);
                    if k < i as int {
                        assert(olds[k].voter != olds[i as int].voter);
                        assert(false);
                    } else if k > i as int {
                        assert(olds[i as int].voter != olds[k].voter);
                        assert(false);
                    }
                    let t = self.defender_votes@;
                    assert(t == olds.update(i as int, b));
                    assert(t.len() == olds.len());
                    assert forall|p: int, q: int| 0 <= p < q < t.len()
                        implies (#[trigger] t[p]).voter != (#[trigger] t[q]).voter by {
                        if p == i as int {
                            assert(t[p] == b);
                            assert(b.voter == voter);
                            assert(t[q] == olds[q]);
                            assert(olds[i as int].voter != olds[q].voter);
                        } else if q == i as int {
                            assert(t[q] == b);
                            assert(b.voter == voter);
                            assert(t[p] == olds[p]);
                            assert(olds[p].voter != voter);
                        } else {
                            assert(t[p] == olds[p] && t[q] == olds[q]);
                            assert(olds[p].voter != olds[q].voter);
                        }
                    }
                }
                return Ok(());
            }
            i = i + 1;
        }
        proof {
            if has_dballot(self.defender_votes@, voter) {
                let k = choose|k: int| 0 <= k < self.defender_votes@.len()
                    && self.defender_votes@[k].voter == voter;
                assert(false);
            }
        }
        self.defender_votes.push(b);
        proof {
            let t = self.defender_votes@;
            let olds = old(self).defender_votes@;
            assert forall|p: int, q: int| 0 <= p < q < t.len()
                implies (#[trigger] t[p]).voter != (#[trigger] t[q]).voter by {
                if q == olds.len() {
                    assert(t[p] == olds[p]);
                } else {
                    assert(t[p] == olds[p] && t[q] == olds[q]);
                }
            }
        }
        Ok(())
    }

    /// An external contribution: move `amount` of the caller's free
    /// balance into the pot.
    pub fn donate(&mut self, caller: u64, amount: u64) -> (r: Result<(), Error>)
        requires
            old(self).inv(),
        ensures
            final(self).inv(),
            r == Err::<(), Error>(Error::NotFounded) <==> !old(self).founded,
            r == Err::<(), Error>(Error::InsufficientFunds) <==> old(self).founded
                && old(self).ledger.free(caller) < amount,
            r is Err ==> *final(self) == *old(self),
            r is Ok <==> old(self).founded && old(self).ledger.free(caller) >= amount,
            r is Ok ==> final(self).pot == old(self).pot + amount
                && final(self).ledger.free(caller) == old(self).ledger.free(caller) - amount
                && (forall|x: u64| x != caller
                    ==> #[trigger] final(self).ledger.free(x) == old(self).ledger.free(x))
                && (forall|x: u64| #[trigger] final(self).ledger.reserved(x)
                    == old(self).ledger.reserved(x))
                && final(self).ledger.total() == old(self).ledger.total() - amount
                && final(self).bids == old(self).bids
                && final(self).members == old(self).members
                && final(self).candidates == old(self).candidates
                && final(self).suspended_members == old(self).suspended_members
                && final(self).suspended_candidates == old(self).suspended_candidates
                && final(self).vouching == old(self).vouching
                && final(self).payouts == old(self).payouts
                && final(self).votes == old(self).votes
                && final(self).defender == old(self).defender
                && final(self).defender_votes == old(self).defender_votes
                && final(self).period == old(self).period
                && final(self).founded == old(self).founded
                && final(self).config == old(self).config,
    {
        if !self.founded {
            return Err(Error::NotFounded);
        }
        proof {
            crate::ledger::lemma_sums_nonneg(self.ledger.accounts@);
            crate::ledger::lemma_account_le_funds(self.ledger.accounts@, caller);
        }
        let ok = self.ledger.withdraw(caller, amount);
        if !ok {
            return Err(Error::InsufficientFunds);
        }
        self.pot = self.pot + amount;
        Ok(())
    }
}

} // verus!
