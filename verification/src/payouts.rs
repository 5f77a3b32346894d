//! The payout vesting ledger: per-account queues of (maturity, amount)
//! entries drawn from the pot.
//!
//! [`pq_push`] books a new entry keeping the queue sorted by maturity;
//! [`Society::payout`] releases every matured entry at once, all or
//! nothing, against the pot. Payouts are claimed by the payee: the
//! period boundary books entries (sponsor tips) but never pays out by
//! itself.

use vstd::prelude::*;
use crate::registry::{
    entries_sorted, has_matured, in_payouts, matured_sum, payouts_uniq, unmatured,
};
use crate::types::{Error, Origin, PayoutEntry, PayoutQueue};
use crate::society::Society;

verus! {

/// Sum of all amounts in an entry queue.
pub open spec fn entries_total(s: Seq<PayoutEntry>) -> int
    decreases s.len(),
{
    if s.len() == 0 {
        0
    } else {
        entries_total(s.drop_last()) + s.last().amount
    }
}

/// All payout amounts booked to `w` across the queues.
pub open spec fn ptotal(s: Seq<PayoutQueue>, w: u64) -> int
    decreases s.len(),
{
    if s.len() == 0 {
        0
    } else {
        ptotal(s.drop_last(), w) + if s.last().who == w {
            entries_total(s.last().entries@)
        } else {
            0int
        }
    }
}

/// Payout amounts booked to `w` that have matured at `now`.
pub open spec fn mtotal(s: Seq<PayoutQueue>, w: u64, now: u64) -> int
    decreases s.len(),
{
    if s.len() == 0 {
        0
    } else {
        mtotal(s.drop_last(), w, now) + if s.last().who == w {
            matured_sum(s.last().entries@, now)
        } else {
            0int
        }
    }
}

/// The index of `w`'s queue (meaningful when present).
pub open spec fn payout_index(s: Seq<PayoutQueue>, w: u64) -> int {
    choose|i: int| 0 <= i < s.len() && s[i].who == w
}

/// Where an entry maturing at `t` lands: after every entry that does
/// not mature later.
pub open spec fn entry_pos_from(s: Seq<PayoutEntry>, t: u64, i: int) -> int
    decreases s.len() - i,
{
    if i < 0 || i >= s.len() {
        i
    } else if s[i].when > t {
        i
    } else {
        entry_pos_from(s, t, i + 1)
    }
}

pub open spec fn entry_pos(s: Seq<PayoutEntry>, t: u64) -> int {
    entry_pos_from(s, t, 0)
}

proof fn lemma_entry_pos(s: Seq<PayoutEntry>, t: u64, k: int, i: int)
    requires
        0 <= k <= i <= s.len(),
        forall|j: int| k <= j < i ==> s[j].when <= t,
        i == s.len() || s[i].when > t,
    ensures
        entry_pos_from(s, t, k) == i,
    decreases i - k,
{
    if k < i {
        lemma_entry_pos(s, t, k + 1, i);
    }
}

/// Sums distribute over concatenation of entry queues.
pub proof fn lemma_entries_concat(a: Seq<PayoutEntry>, b: Seq<PayoutEntry>, now: u64)
    ensures
        entries_total(a + b) == entries_total(a) + entries_total(b),
        matured_sum(a + b, now) == matured_sum(a, now) + matured_sum(b, now),
    decreases b.len(),
{
    if b.len() == 0 {
        assert(a + b =~= a);
    } else {
        lemma_entries_concat(a, b.drop_last(), now);
        assert((a + b).drop_last() =~= a + b.drop_last());
        assert((a + b).last() == b.last());
    }
}

/// How inserting one entry moves the sums.
pub proof fn lemma_entries_insert(s: Seq<PayoutEntry>, i: int, e: PayoutEntry, now: u64)
    requires
        0 <= i <= s.len(),
    ensures
        entries_total(s.insert(i, e)) == entries_total(s) + e.amount,
        matured_sum(s.insert(i, e), now) == matured_sum(s, now)
            + (if e.when <= now { e.amount as int } else { 0int }),
{
    let t = s.insert(i, e);
    assert(t =~= s.take(i) + seq![e] + s.skip(i));
    assert(s =~= s.take(i) + s.skip(i));
    lemma_entries_concat(s.take(i), s.skip(i), now);
    lemma_entries_concat(s.take(i) + seq![e], s.skip(i), now);
    lemma_entries_concat(s.take(i), seq![e], now);
    assert(seq![e].drop_last() =~= Seq::<PayoutEntry>::empty());
    assert(seq![e].last() == e);
    assert(entries_total(Seq::<PayoutEntry>::empty()) == 0);
    assert(matured_sum(Seq::<PayoutEntry>::empty(), now) == 0);
    assert(entries_total(seq![e]) == e.amount);
    assert(matured_sum(seq![e], now) == if e.when <= now { e.amount as int } else { 0int });
}

/// Matured money is never negative, and never more than the queue total.
pub proof fn lemma_matured_bounds(s: Seq<PayoutEntry>, now: u64)
    ensures
        0 <= matured_sum(s, now),
        matured_sum(s, now) <= entries_total(s),
    decreases s.len(),
{
    if s.len() > 0 {
        lemma_matured_bounds(s.drop_last(), now);
    }
}

/// Dropping the matured entries keeps the queue sorted, keeps the
/// unmatured total, and leaves nothing matured behind.
pub proof fn lemma_unmatured(s: Seq<PayoutEntry>, now: u64)
    requires
        entries_sorted(s),
    ensures
        entries_sorted(unmatured(s, now)),
        entries_total(unmatured(s, now)) == entries_total(s) - matured_sum(s, now),
        !has_matured(unmatured(s, now), now),
        s.len() > 0 ==> forall|k: int| 0 <= k < unmatured(s, now).len()
            ==> (#[trigger] unmatured(s, now)[k]).when <= s.last().when,
    decreases s.len(),
{
    if s.len() > 0 {
        assert(entries_sorted(s.drop_last()));
        lemma_unmatured(s.drop_last(), now);
        let u = unmatured(s, now);
        let ud = unmatured(s.drop_last(), now);
        if s.last().when <= now {
            assert(u == ud);
            if s.len() > 1 {
                assert forall|k: int| 0 <= k < u.len()
                    implies (#[trigger] u[k]).when <= s.last().when by {
                    assert(u[k].when <= s.drop_last().last().when);
                    assert(s[s.len() - 2].when <= s[s.len() - 1].when);
                }
            }
        } else {
            assert(u == ud.push(s.last()));
            assert(u.drop_last() =~= ud);
            assert(u.last() == s.last());
            assert forall|k: int| 0 <= k < u.len()
                implies (#[trigger] u[k]).when <= s.last().when by {
                if k < ud.len() {
                    assert(u[k] == ud[k]);
                    if s.len() > 1 {
                        assert(ud[k].when <= s.drop_last().last().when);
                        assert(s[s.len() - 2].when <= s[s.len() - 1].when);
                    }
                }
            }
            assert forall|p: int, q: int| 0 <= p < q < u.len()
                implies u[p].when <= u[q].when by {
                if q < ud.len() {
                    assert(u[p] == ud[p] && u[q] == ud[q]);
                } else {
                    assert(u[q] == s.last());
                }
            }
            assert(!has_matured(u, now)) by {
                if has_matured(u, now) {
                    let k = choose|k: int| 0 <= k < u.len() && u[k].when <= now;
                    if k < ud.len() {
                        assert(ud[k].when <= now);
                        assert(has_matured(ud, now));
                    }
                }
            }
        }
    }
}

/// One step of a front-to-back scan of an entry queue.
pub proof fn lemma_entries_take_step(s: Seq<PayoutEntry>, now: u64, i: int)
    requires
        0 <= i < s.len(),
    ensures
        matured_sum(s.take(i + 1), now) == matured_sum(s.take(i), now)
            + (if s[i].when <= now { s[i].amount as int } else { 0int }),
        unmatured(s.take(i + 1), now) == if s[i].when <= now {
            unmatured(s.take(i), now)
        } else {
            unmatured(s.take(i), now).push(s[i])
        },
        has_matured(s.take(i + 1), now) <==> (has_matured(s.take(i), now) || s[i].when <= now),
{
    assert(s.take(i + 1).drop_last() =~= s.take(i));
    assert(s.take(i + 1).last() == s[i]);
    {
        let a = s.take(i);
        let b = s.take(i + 1);
        if has_matured(b, now) {
            let k = choose|k: int| 0 <= k < b.len() && b[k].when <= now;
            if k < i {
                assert(a[k].when <= now);
            }
        }
        if has_matured(a, now) {
            let k = choose|k: int| 0 <= k < a.len() && a[k].when <= now;
            assert(b[k].when <= now);
        }
        if s[i].when <= now {
            assert(b[i].when <= now);
        }
    }
}

/// Book `(when, amount)` into `w`'s queue, creating the queue if
/// needed, keeping it sorted by maturity (after earlier entries of the
/// same maturity).
#[verifier::rlimit(100)]
pub fn pq_push(v: &mut Vec<PayoutQueue>, w: u64, when: u64, amount: u64)
    requires
        payouts_uniq(old(v)@),
        forall|k: int| 0 <= k < old(v)@.len()
            ==> entries_sorted((#[trigger] old(v)@[k]).entries@),
    ensures
        payouts_uniq(final(v)@),
        forall|k: int| 0 <= k < final(v)@.len()
            ==> entries_sorted((#[trigger] final(v)@[k]).entries@),
        forall|x: u64| #[trigger] in_payouts(final(v)@, x) <==> (in_payouts(old(v)@, x) || x
            == w),
        forall|x: u64| #[trigger] ptotal(final(v)@, x) == ptotal(old(v)@, x)
            + (if x == w { amount as int } else { 0int }),
        forall|x: u64, now: u64| #[trigger] mtotal(final(v)@, x, now) == mtotal(old(v)@, x, now)
            + (if x == w && when <= now { amount as int } else { 0int }),
        in_payouts(old(v)@, w) ==> {
            let qi = payout_index(old(v)@, w);
            final(v)@ == old(v)@.update(qi, final(v)@[qi])
                && final(v)@[qi].who == w
                && final(v)@[qi].entries@ == old(v)@[qi].entries@.insert(
                entry_pos(old(v)@[qi].entries@, when),
                PayoutEntry { when, amount },
            )
        },
        !in_payouts(old(v)@, w) ==> final(v)@.len() == old(v)@.len() + 1
            && final(v)@.take(old(v)@.len() as int) == old(v)@
            && final(v)@.last().who == w
            && final(v)@.last().entries@ == seq![PayoutEntry { when, amount }],
{
    let e = PayoutEntry { when, amount };
    let n = v.len();
    let mut qi: usize = 0;
    while qi < n && v[qi].who != w
        invariant
            n == v@.len(),
            qi <= n,
            forall|j: int| 0 <= j < qi ==> v@[j].who != w,
        decreases n - qi,
    {
        qi = qi + 1;
    }
    if qi < n {
        // Insert into this queue at the stable sorted position.
        let ghost oldq = v@;
        let ghost olde = v@[qi as int].entries@;
        proof {
            assert(in_payouts(oldq, w));
            let k = payout_index(oldq, w);
            assert(oldq[k].who == w);
            assert(oldq[qi as int].who == w);
            assert(k == qi as int);
        }
        let m = v[qi].entries.len();
        let mut p: usize = 0;
        while p < m && v[qi].entries[p].when <= when
            invariant
                *v == *old(v),
                qi < v@.len(),
                m == v@[qi as int].entries@.len(),
                p <= m,
                forall|j: int| 0 <= j < p ==> v@[qi as int].entries@[j].when <= when,
            decreases m - p,
        {
            p = p + 1;
        }
        proof {
            lemma_entry_pos(olde, when, 0, p as int);
        }
        let mut newe: Vec<PayoutEntry> = Vec::new();
        let mut j: usize = 0;
        proof {
            assert(olde.take(0) =~= Seq::<PayoutEntry>::empty());
        }
        while j < m
            invariant
                *v == *old(v),
                qi < v@.len(),
                olde == v@[qi as int].entries@,
                m == olde.len(),
                j <= m,
                newe@ == olde.take(j as int),
            decreases m - j,
        {
            proof {
                assert(olde.take(j + 1int).drop_last() =~= olde.take(j as int));
                assert(olde.take(j + 1int).last() == olde[j as int]);
            }
            newe.push(v[qi].entries[j]);
            j = j + 1;
        }
        proof {
            assert(olde.take(m as int) =~= olde);
        }
        newe.insert(p, e);
        let q = PayoutQueue { who: w, entries: newe };
        proof {
            let t = q.entries@;
            assert(t == olde.insert(p as int, e));
            assert(entries_sorted(t)) by {
                assert forall|a: int, b2: int| 0 <= a < b2 < t.len()
                    implies t[a].when <= t[b2].when by {
                    if b2 < p {
                        assert(t[a] == olde[a] && t[b2] == olde[b2]);
                    } else if a > p as int {
                        assert(t[a] == olde[a - 1] && t[b2] == olde[b2 - 1]);
                    } else if a == p && b2 > p {
                        assert(t[b2] == olde[b2 - 1]);
                    } else if b2 == p {
                        assert(t[a] == olde[a]);
                    } else {
                        assert(t[a] == olde[a] && t[b2] == olde[b2 - 1]);
                    }
                }
            }
            lemma_pq_sum_update(oldq, qi as int, q);
        }
        v.set(qi, q);
        proof {
            let newq = v@;
            assert(newq == oldq.update(qi as int, newq[qi as int]));
            lemma_entries_insert(olde, p as int, e, 0);
            assert forall|x: u64| #[trigger] in_payouts(newq, x)
                <==> (in_payouts(oldq, x) || x == w) by {
                if in_payouts(newq, x) {
                    let k = choose|k: int| 0 <= k < newq.len() && newq[k].who == x;
                    if k != qi as int {
                        assert(oldq[k].who == x);
                    }
                }
                if in_payouts(oldq, x) {
                    let k = choose|k: int| 0 <= k < oldq.len() && oldq[k].who == x;
                    if k != qi as int {
                        assert(newq[k].who == x);
                    } else {
                        assert(newq[qi as int].who == x);
                    }
                }
                if x == w {
                    assert(newq[qi as int].who == x);
                }
            }
            assert forall|x: u64, now: u64| #[trigger] mtotal(v@, x, now)
                == mtotal(old(v)@, x, now)
                    + (if x == w && when <= now { amount as int } else { 0int }) by {
                lemma_entries_insert(olde, p as int, e, now);
                lemma_pq_msum_update(oldq, qi as int, newq[qi as int], now);
                assert(mtotal(newq, x, now) == mtotal(oldq, x, now)
                    + (if x == w && when <= now { amount as int } else { 0int }));
            }
            assert forall|k: int| 0 <= k < newq.len()
                implies entries_sorted((#[trigger] newq[k]).entries@) by {
                if k != qi as int {
                    assert(newq[k] == oldq[k]);
                }
            }
        }
    } else {
        let mut entries = Vec::new();
        entries.push(e);
        let q = PayoutQueue { who: w, entries };
        proof {
            assert(q.entries@ =~= seq![e]);
            assert(!in_payouts(v@, w)) by {
                if in_payouts(v@, w) {
                    let k = choose|k: int| 0 <= k < v@.len() && v@[k].who == w;
                }
            }
            lemma_pq_sum_push(v@, q);
        }
        v.push(q);
        proof {
            let newq = v@;
            let oldq = old(v)@;
            assert(newq.drop_last() =~= oldq);
            assert(newq.take(oldq.len() as int) =~= oldq);
            assert(seq![e].drop_last() =~= Seq::<PayoutEntry>::empty());
            assert(seq![e].last() == e);
            assert(entries_total(Seq::<PayoutEntry>::empty()) == 0);
            assert(entries_total(seq![e]) == e.amount);
            assert forall|now: u64| #[trigger] matured_sum(seq![e], now)
                == (if e.when <= now { e.amount as int } else { 0int }) by {
                assert(matured_sum(Seq::<PayoutEntry>::empty(), now) == 0);
            }
            assert forall|x: u64| #[trigger] in_payouts(newq, x)
                <==> (in_payouts(oldq, x) || x == w) by {
                if in_payouts(newq, x) {
                    let k = choose|k: int| 0 <= k < newq.len() && newq[k].who == x;
                    if k < oldq.len() {
                        assert(oldq[k].who == x);
                    }
                }
                if in_payouts(oldq, x) {
                    let k = choose|k: int| 0 <= k < oldq.len() && oldq[k].who == x;
                    assert(newq[k].who == x);
                }
                if x == w {
                    assert(newq[oldq.len() as int].who == x);
                }
            }
            assert forall|p2: int, q2: int| 0 <= p2 < q2 < newq.len()
                implies newq[p2].who != newq[q2].who by {
                if q2 == oldq.len() {
                    assert(newq[p2] == oldq[p2]);
                    assert(!(oldq[p2].who == w));
                }
            }
            assert forall|k: int| 0 <= k < newq.len()
                implies entries_sorted((#[trigger] newq[k]).entries@) by {
                if k < oldq.len() {
                    assert(newq[k] == oldq[k]);
                }
            }
        }
    }
}

/// How appending a fresh queue moves the booked totals.
proof fn lemma_pq_sum_push(s: Seq<PayoutQueue>, q: PayoutQueue)
    ensures
        forall|x: u64| #[trigger] ptotal(s.push(q), x) == ptotal(s, x)
            + (if q.who == x { entries_total(q.entries@) } else { 0int }),
        forall|x: u64, now: u64| #[trigger] mtotal(s.push(q), x, now) == mtotal(s, x, now)
            + (if q.who == x { matured_sum(q.entries@, now) } else { 0int }),
{
    assert(s.push(q).drop_last() =~= s);
}

/// How replacing one queue (same owner) moves the booked totals.
proof fn lemma_pq_sum_update(s: Seq<PayoutQueue>, i: int, q: PayoutQueue)
    requires
        0 <= i < s.len(),
        s[i].who == q.who,
    ensures
        forall|x: u64| #[trigger] ptotal(s.update(i, q), x) == ptotal(s, x)
            + (if q.who == x { entries_total(q.entries@) - entries_total(s[i].entries@) } else {
                0int
            }),
        payouts_uniq(s) ==> payouts_uniq(s.update(i, q)),
    decreases s.len(),
{
    let t = s.update(i, q);
    if i == s.len() - 1 {
        assert(t.drop_last() =~= s.drop_last());
    } else {
        assert(t.drop_last() =~= s.drop_last().update(i, q));
        lemma_pq_sum_update(s.drop_last(), i, q);
        assert forall|x: u64| #[trigger] ptotal(t, x) == ptotal(s, x)
            + (if q.who == x { entries_total(q.entries@) - entries_total(s[i].entries@) } else {
                0int
            }) by {
            assert(ptotal(t.drop_last(), x) == ptotal(s.drop_last(), x)
                + (if q.who == x {
                    entries_total(q.entries@) - entries_total(s[i].entries@)
                } else {
                    0int
                }));
        }
    }
    if payouts_uniq(s) {
        assert forall|p: int, r: int| 0 <= p < r < t.len() implies t[p].who != t[r].who by {
            assert(s[p].who != s[r].who);
        }
    }
}

/// The same for matured totals at a given time.
proof fn lemma_pq_msum_update(s: Seq<PayoutQueue>, i: int, q: PayoutQueue, now: u64)
    requires
        0 <= i < s.len(),
        s[i].who == q.who,
    ensures
        forall|x: u64| #[trigger] mtotal(s.update(i, q), x, now) == mtotal(s, x, now)
            + (if q.who == x {
                matured_sum(q.entries@, now) - matured_sum(s[i].entries@, now)
            } else {
                0int
            }),
    decreases s.len(),
{
    let t = s.update(i, q);
    if i == s.len() - 1 {
        assert(t.drop_last() =~= s.drop_last());
    } else {
        assert(t.drop_last() =~= s.drop_last().update(i, q));
        lemma_pq_msum_update(s.drop_last(), i, q, now);
        assert forall|x: u64| #[trigger] mtotal(t, x, now) == mtotal(s, x, now)
            + (if q.who == x {
                matured_sum(q.entries@, now) - matured_sum(s[i].entries@, now)
            } else {
                0int
            }) by {
            assert(mtotal(t.drop_last(), x, now) == mtotal(s.drop_last(), x, now)
                + (if q.who == x {
                    matured_sum(q.entries@, now) - matured_sum(s[i].entries@, now)
                } else {
                    0int
                }));
        }
    }
}

impl Society {
    /// Grant `who` a vested share: append `(maturity, amount)` to their
    /// payout queue. Gated on the privileged authorities; the grant is
    /// a promise against the pot, checked when the payout is claimed.
    pub fn bump_payout(&mut self, origin: Origin, who: u64, maturity: u64, amount: u64) -> (r:
        Result<(), Error>)
        requires
            old(self).inv(),
        ensures
            final(self).inv(),
            r is Ok <==> (origin == Origin::Root || origin == Origin::SuspensionJudgement)
                && old(self).founded,
            r == Err::<(), Error>(Error::BadOrigin) <==> origin != Origin::Root && origin
                != Origin::SuspensionJudgement,
            r == Err::<(), Error>(Error::NotFounded) <==> (origin == Origin::Root || origin
                == Origin::SuspensionJudgement) && !old(self).founded,
            r is Err ==> *final(self) == *old(self),
            r is Ok ==> {
                &&& forall|x: u64| #[trigger] ptotal(final(self).payouts@, x)
                    == ptotal(old(self).payouts@, x)
                        + (if x == who { amount as int } else { 0int })
                &&& forall|x: u64, now: u64| #[trigger] mtotal(final(self).payouts@, x, now)
                    == mtotal(old(self).payouts@, x, now)
                        + (if x == who && maturity <= now { amount as int } else { 0int })
                &&& in_payouts(old(self).payouts@, who) ==> {
                    let qi = payout_index(old(self).payouts@, who);
                    final(self).payouts@ == old(self).payouts@.update(
                        qi,
                        final(self).payouts@[qi],
                    ) && final(self).payouts@[qi].who == who
                        && final(self).payouts@[qi].entries@
                        == old(self).payouts@[qi].entries@.insert(
                        entry_pos(old(self).payouts@[qi].entries@, maturity),
                        PayoutEntry { when: maturity, amount },
                    )
                }
                &&& !in_payouts(old(self).payouts@, who)
                    ==> final(self).payouts@.len() == old(self).payouts@.len() + 1
                        && final(self).payouts@.take(old(self).payouts@.len() as int)
                        == old(self).payouts@
                        && final(self).payouts@.last().who == who
                        && final(self).payouts@.last().entries@
                        == seq![PayoutEntry { when: maturity, amount }]
                &&& final(self).ledger == old(self).ledger
                &&& final(self).pot == old(self).pot
                &&& final(self).bids == old(self).bids
                &&& final(self).members == old(self).members
                &&& final(self).candidates == old(self).candidates
                &&& final(self).suspended_members == old(self).suspended_members
                &&& final(self).suspended_candidates == old(self).suspended_candidates
                &&& final(self).vouching == old(self).vouching
                &&& final(self).votes == old(self).votes
                &&& final(self).defender == old(self).defender
                &&& final(self).defender_votes == old(self).defender_votes
                &&& final(self).period == old(self).period
                &&& final(self).founded == old(self).founded
                &&& final(self).config == old(self).config
            },
    {
        match origin {
            Origin::Root | Origin::SuspensionJudgement => {},
            _ => {
                return Err(Error::BadOrigin);
            },
        }
        if !self.founded {
            return Err(Error::NotFounded);
        }
        pq_push(&mut self.payouts, who, maturity, amount);
        Ok(())
    }

    /// Release every payout entry of the caller that has matured at
    /// `now`, as one all-or-nothing transfer from the pot. Entries stay
    /// queued when the pot cannot cover the whole matured sum.
    pub fn payout(&mut self, caller: u64, now: u64) -> (r: Result<u64, Error>)
        requires
            old(self).inv(),
        ensures
            final(self).inv(),
            r == Err::<u64, Error>(Error::NoPayout) <==> (!in_payouts(old(self).payouts@, caller)
                || !has_matured(
                old(self).payouts@[payout_index(old(self).payouts@, caller)].entries@,
                now,
            )),
            r == Err::<u64, Error>(Error::InsufficientPot)
                <==> in_payouts(old(self).payouts@, caller) && {
                let es = old(self).payouts@[payout_index(old(self).payouts@, caller)].entries@;
                has_matured(es, now) && matured_sum(es, now) > old(self).pot
            },
            r is Err ==> *final(self) == *old(self),
            r is Ok <==> in_payouts(old(self).payouts@, caller) && {
                let es = old(self).payouts@[payout_index(old(self).payouts@, caller)].entries@;
                has_matured(es, now) && matured_sum(es, now) <= old(self).pot
            },
            r is Ok ==> {
                let qi = payout_index(old(self).payouts@, caller);
                let es = old(self).payouts@[qi].entries@;
                &&& r == Ok::<u64, Error>((matured_sum(es, now)) as u64)
                &&& final(self).pot == old(self).pot - matured_sum(es, now)
                &&& final(self).ledger.free(caller) == old(self).ledger.free(caller)
                    + matured_sum(es, now)
                &&& forall|x: u64| x != caller
                    ==> #[trigger] final(self).ledger.free(x) == old(self).ledger.free(x)
                &&& forall|x: u64| #[trigger] final(self).ledger.reserved(x)
                    == old(self).ledger.reserved(x)
                &&& final(self).payouts@ == old(self).payouts@.update(
                    qi,
                    final(self).payouts@[qi],
                )
                &&& final(self).payouts@[qi].who == caller
                &&& final(self).payouts@[qi].entries@ == unmatured(es, now)
                &&& final(self).ledger.total() == old(self).ledger.total() + matured_sum(es, now)
                &&& final(self).bids == old(self).bids
                &&& final(self).members == old(self).members
                &&& final(self).candidates == old(self).candidates
                &&& final(self).suspended_members == old(self).suspended_members
                &&& final(self).suspended_candidates == old(self).suspended_candidates
                &&& final(self).vouching == old(self).vouching
                &&& final(self).votes == old(self).votes
                &&& final(self).defender == old(self).defender
                &&& final(self).defender_votes == old(self).defender_votes
                &&& final(self).period == old(self).period
                &&& final(self).founded == old(self).founded
                &&& final(self).config == old(self).config
            },
    {
        let n = self.payouts.len();
        let mut qi: usize = 0;
        while qi < n && self.payouts[qi].who != caller
            invariant
                *self == *old(self),
                old(self).inv(),
                n == self.payouts@.len(),
                qi <= n,
                forall|j: int| 0 <= j < qi ==> self.payouts@[j].who != caller,
            decreases n - qi,
        {
            qi = qi + 1;
        }
        if qi == n {
            proof {
                if in_payouts(self.payouts@, caller) {
                    let k = choose|k: int| 0 <= k < self.payouts@.len()
                        && self.payouts@[k].who == caller;
                }
            }
            return Err(Error::NoPayout);
        }
        proof {
            assert(in_payouts(self.payouts@, caller));
            let k = payout_index(self.payouts@, caller);
            assert(self.payouts@[k].who == caller);
            assert(self.payouts@[qi as int].who == caller);
            assert(k == qi as int);
        }
        let ghost es = self.payouts@[qi as int].entries@;
        let m = self.payouts[qi].entries.len();
        let mut kept: Vec<PayoutEntry> = Vec::new();
        let mut sum: u64 = 0;
        let mut over: bool = false;
        let mut found: bool = false;
        let mut p: usize = 0;
        proof {
            assert(es.take(0) =~= Seq::<PayoutEntry>::empty());
        }
        while p < m
            invariant
                *self == *old(self),
                old(self).inv(),
                qi < self.payouts@.len(),
                self.payouts@[qi as int].who == caller,
                es == self.payouts@[qi as int].entries@,
                m == es.len(),
                p <= m,
                kept@ == unmatured(es.take(p as int), now),
                found == has_matured(es.take(p as int), now),
                !over ==> sum == matured_sum(es.take(p as int), now),
                over ==> matured_sum(es.take(p as int), now) > u64::MAX,
            decreases m - p,
        {
            proof {
                lemma_entries_take_step(es, now, p as int);
                lemma_matured_bounds(es.take(p as int), now);
            }
            let e = self.payouts[qi].entries[p];
            if e.when <= now {
                found = true;
                if sum > u64::MAX - e.amount {
                    over = true;
                } else if !over {
                    sum = sum + e.amount;
                }
            } else {
                kept.push(e);
            }
            p = p + 1;
        }
        proof {
            assert(es.take(m as int) =~= es);
        }
        if !found {
            return Err(Error::NoPayout);
        }
        if over || sum > self.pot {
            return Err(Error::InsufficientPot);
        }
        proof {
            crate::ledger::lemma_sums_nonneg(self.ledger.accounts@);
            lemma_matured_bounds(es, now);
            lemma_unmatured(es, now);
        }
        self.pot = self.pot - sum;
        self.ledger.credit(caller, sum);
        let q = PayoutQueue { who: caller, entries: kept };
        proof {
            lemma_pq_sum_update(self.payouts@, qi as int, q);
        }
        self.payouts.set(qi, q);
        proof {
            assert(self.payouts@ == old(self).payouts@.update(qi as int, q));
            assert forall|k: int| 0 <= k < self.payouts@.len()
                implies entries_sorted((#[trigger] self.payouts@[k]).entries@) by {
                if k != qi as int {
                    assert(self.payouts@[k] == old(self).payouts@[k]);
                }
            }
        }
        Ok(sum)
    }
}

} // verus!
