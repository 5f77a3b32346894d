//! Spec-level view of bid sequences: who takes part, what deposit each
//! bid locks, and how the pool is ordered.
//!
//! The bid pool, the candidate slate and the suspended-candidate set are
//! all sequences of [`Bid`]s; the fund-accounting invariant of the
//! society is stated over [`dep_of`], the deposit a given account has
//! locked across such a sequence.

use vstd::prelude::*;
use crate::types::{Bid, BidKind};

verus! {

/// The deposit a single bid locks: the reserved amount of a deposit
/// bid, nothing for a vouched one.
pub open spec fn dep_amt(b: Bid) -> int {
    match b.kind {
        BidKind::Deposit(d) => d as int,
        BidKind::Vouch(_, _) => 0int,
    }
}

/// Total deposit locked by bids of account `w` in `s`.
pub open spec fn dep_of(s: Seq<Bid>, w: u64) -> int
    decreases s.len(),
{
    if s.len() == 0 {
        0
    } else {
        dep_of(s.drop_last(), w) + if s.last().who == w {
            dep_amt(s.last())
        } else {
            0int
        }
    }
}

/// Account `w` has a bid in `s`.
pub open spec fn has_bid(s: Seq<Bid>, w: u64) -> bool {
    exists|i: int| 0 <= i < s.len() && s[i].who == w
}

/// No two bids in `s` come from the same account.
pub open spec fn bids_uniq(s: Seq<Bid>) -> bool {
    forall|i: int, j: int| 0 <= i < j < s.len() ==> s[i].who != s[j].who
}

/// Ascending by value; equal values keep insertion order by staying
/// where they are.
pub open spec fn bids_sorted(s: Seq<Bid>) -> bool {
    forall|i: int, j: int| 0 <= i < j < s.len() ==> s[i].value <= s[j].value
}

/// The sum over a one-bid sequence.
pub proof fn lemma_dep_singleton(b: Bid)
    ensures
        forall|w: u64| #[trigger] dep_of(seq![b], w)
            == (if b.who == w { dep_amt(b) } else { 0int }),
{
    let s = seq![b];
    assert(s.drop_last() =~= Seq::<Bid>::empty());
    assert(s.last() == b);
    assert forall|w: u64| #[trigger] dep_of(s, w)
        == (if b.who == w { dep_amt(b) } else { 0int }) by {
        assert(dep_of(s.drop_last(), w) == 0);
    }
}

/// Deposits are non-negative, singly and in sum.
pub proof fn lemma_dep_nonneg(s: Seq<Bid>)
    ensures
        forall|w: u64| #[trigger] dep_of(s, w) >= 0,
    decreases s.len(),
{
    if s.len() > 0 {
        lemma_dep_nonneg(s.drop_last());
        assert forall|w: u64| #[trigger] dep_of(s, w) >= 0 by {
            assert(dep_of(s.drop_last(), w) >= 0);
        }
    } else {
        assert forall|w: u64| #[trigger] dep_of(s, w) >= 0 by {}
    }
}

/// Deposit sums distribute over concatenation.
pub proof fn lemma_dep_concat(a: Seq<Bid>, b: Seq<Bid>)
    ensures
        forall|w: u64| #[trigger] dep_of(a + b, w) == dep_of(a, w) + dep_of(b, w),
    decreases b.len(),
{
    if b.len() == 0 {
        assert(a + b =~= a);
        assert forall|w: u64| #[trigger] dep_of(a + b, w) == dep_of(a, w) + dep_of(b, w) by {}
    } else {
        lemma_dep_concat(a, b.drop_last());
        assert((a + b).drop_last() =~= a + b.drop_last());
        assert forall|w: u64| #[trigger] dep_of(a + b, w) == dep_of(a, w) + dep_of(b, w) by {
            assert(dep_of((a + b).drop_last(), w) == dep_of(a, w) + dep_of(b.drop_last(), w));
            assert((a + b).last() == b.last());
        }
    }
}

/// How appending one bid moves the sums.
pub proof fn lemma_dep_push(s: Seq<Bid>, b: Bid)
    ensures
        forall|w: u64| #[trigger] dep_of(s.push(b), w) == dep_of(s, w)
            + (if b.who == w { dep_amt(b) } else { 0int }),
        forall|w: u64| #[trigger] has_bid(s.push(b), w) <==> (has_bid(s, w) || w == b.who),
{
    assert(s.push(b).drop_last() =~= s);
    assert forall|w: u64| #[trigger] has_bid(s.push(b), w) <==> (has_bid(s, w) || w == b.who) by {
        let t = s.push(b);
        if has_bid(t, w) {
            let i = choose|i: int| 0 <= i < t.len() && t[i].who == w;
            if i < s.len() {
                assert(s[i].who == w);
            }
        }
        if has_bid(s, w) {
            let i = choose|i: int| 0 <= i < s.len() && s[i].who == w;
            assert(t[i].who == w);
        }
        if w == b.who {
            assert(t[s.len() as int].who == w);
        }
    }
}

/// With no bid of `w` in `s`, the sum is zero.
pub proof fn lemma_dep_absent(s: Seq<Bid>, w: u64)
    requires
        !has_bid(s, w),
    ensures
        dep_of(s, w) == 0,
    decreases s.len(),
{
    if s.len() > 0 {
        assert(!has_bid(s.drop_last(), w)) by {
            if has_bid(s.drop_last(), w) {
                let i = choose|i: int| 0 <= i < s.drop_last().len() && s.drop_last()[i].who == w;
                assert(s[i].who == w);
            }
        }
        assert(s.last().who != w) by {
            if s.last().who == w {
                assert(s[s.len() - 1].who == w);
            }
        }
        lemma_dep_absent(s.drop_last(), w);
    }
}

/// With unique bidders, the whole sum for a present bidder is that
/// bid's own deposit.
pub proof fn lemma_dep_lookup(s: Seq<Bid>, i: int)
    requires
        bids_uniq(s),
        0 <= i < s.len(),
    ensures
        dep_of(s, s[i].who) == dep_amt(s[i]),
    decreases s.len(),
{
    if i == s.len() - 1 {
        assert(!has_bid(s.drop_last(), s[i].who)) by {
            if has_bid(s.drop_last(), s[i].who) {
                let j = choose|j: int| 0 <= j < s.drop_last().len()
                    && s.drop_last()[j].who == s[i].who;
                assert(s[j].who == s[i].who);
            }
        }
        lemma_dep_absent(s.drop_last(), s[i].who);
    } else {
        lemma_dep_lookup(s.drop_last(), i);
        assert(s.last().who != s[i].who);
    }
}

/// Splitting a sequence splits the sums, and membership.
pub proof fn lemma_dep_split(s: Seq<Bid>, n: int)
    requires
        0 <= n <= s.len(),
    ensures
        forall|w: u64| #[trigger] dep_of(s, w)
            == dep_of(s.take(n), w) + dep_of(s.skip(n), w),
        forall|w: u64| #[trigger] has_bid(s, w)
            <==> (has_bid(s.take(n), w) || has_bid(s.skip(n), w)),
{
    assert(s =~= s.take(n) + s.skip(n));
    lemma_dep_concat(s.take(n), s.skip(n));
    assert forall|w: u64| #[trigger] has_bid(s, w)
        <==> (has_bid(s.take(n), w) || has_bid(s.skip(n), w)) by {
        if has_bid(s, w) {
            let i = choose|i: int| 0 <= i < s.len() && s[i].who == w;
            if i < n {
                assert(s.take(n)[i].who == w);
            } else {
                assert(s.skip(n)[i - n].who == w);
            }
        }
        if has_bid(s.take(n), w) {
            let i = choose|i: int| 0 <= i < s.take(n).len() && s.take(n)[i].who == w;
            assert(s[i].who == w);
        }
        if has_bid(s.skip(n), w) {
            let i = choose|i: int| 0 <= i < s.skip(n).len() && s.skip(n)[i].who == w;
            assert(s[i + n].who == w);
        }
    }
}

/// How removing index `i` moves the sums and membership.
pub proof fn lemma_dep_remove(s: Seq<Bid>, i: int)
    requires
        0 <= i < s.len(),
    ensures
        forall|w: u64| #[trigger] dep_of(s.remove(i), w) == dep_of(s, w)
            - (if s[i].who == w { dep_amt(s[i]) } else { 0int }),
        forall|w: u64| #[trigger] has_bid(s.remove(i), w) ==> has_bid(s, w),
        forall|w: u64| has_bid(s, w) && w != s[i].who ==> #[trigger] has_bid(s.remove(i), w),
        bids_uniq(s) ==> !has_bid(s.remove(i), s[i].who),
{
    let t = s.remove(i);
    assert(t =~= s.take(i) + s.skip(i + 1));
    assert(s.skip(i) =~= seq![s[i]] + s.skip(i + 1));
    lemma_dep_concat(s.take(i), s.skip(i + 1));
    lemma_dep_concat(seq![s[i]], s.skip(i + 1));
    lemma_dep_split(s, i);
    lemma_dep_singleton(s[i]);
    assert forall|w: u64| #[trigger] dep_of(s.remove(i), w) == dep_of(s, w)
        - (if s[i].who == w { dep_amt(s[i]) } else { 0int }) by {
        assert(dep_of(s.skip(i), w) == dep_of(seq![s[i]], w) + dep_of(s.skip(i + 1), w));
    }
    assert forall|w: u64| #[trigger] has_bid(s.remove(i), w) ==> has_bid(s, w) by {
        if has_bid(t, w) {
            let j = choose|j: int| 0 <= j < t.len() && t[j].who == w;
            if j < i {
                assert(s[j].who == w);
            } else {
                assert(s[j + 1].who == w);
            }
        }
    }
    assert forall|w: u64| has_bid(s, w) && w != s[i].who
        ==> #[trigger] has_bid(s.remove(i), w) by {
        if has_bid(s, w) && w != s[i].who {
            let j = choose|j: int| 0 <= j < s.len() && s[j].who == w;
            if j < i {
                assert(t[j].who == w);
            } else {
                assert(t[j - 1].who == w);
            }
        }
    }
    if bids_uniq(s) {
        assert(!has_bid(t, s[i].who)) by {
            if has_bid(t, s[i].who) {
                let j = choose|j: int| 0 <= j < t.len() && t[j].who == s[i].who;
                if j < i {
                    assert(s[j].who == s[i].who);
                } else {
                    assert(s[j + 1].who == s[i].who);
                }
            }
        }
    }
}

/// How inserting a bid at position `i` moves the sums and membership.
pub proof fn lemma_dep_insert(s: Seq<Bid>, i: int, b: Bid)
    requires
        0 <= i <= s.len(),
    ensures
        forall|w: u64| #[trigger] dep_of(s.insert(i, b), w) == dep_of(s, w)
            + (if b.who == w { dep_amt(b) } else { 0int }),
        forall|w: u64| #[trigger] has_bid(s.insert(i, b), w) <==> (has_bid(s, w) || w == b.who),
{
    let t = s.insert(i, b);
    assert(t =~= s.take(i) + seq![b] + s.skip(i));
    assert(s =~= s.take(i) + s.skip(i));
    lemma_dep_concat(s.take(i), s.skip(i));
    lemma_dep_concat(s.take(i) + seq![b], s.skip(i));
    lemma_dep_concat(s.take(i), seq![b]);
    lemma_dep_singleton(b);
    assert forall|w: u64| #[trigger] dep_of(s.insert(i, b), w) == dep_of(s, w)
        + (if b.who == w { dep_amt(b) } else { 0int }) by {
        assert(dep_of(s.take(i) + seq![b], w) == dep_of(s.take(i), w) + dep_of(seq![b], w));
    }
    assert forall|w: u64| #[trigger] has_bid(s.insert(i, b), w)
        <==> (has_bid(s, w) || w == b.who) by {
        if has_bid(t, w) {
            let j = choose|j: int| 0 <= j < t.len() && t[j].who == w;
            if j < i {
                assert(s[j].who == w);
            } else if j > i {
                assert(s[j - 1].who == w);
            }
        }
        if has_bid(s, w) {
            let j = choose|j: int| 0 <= j < s.len() && s[j].who == w;
            if j < i {
                assert(t[j].who == w);
            } else {
                assert(t[j + 1].who == w);
            }
        }
        if w == b.who {
            assert(t[i].who == w);
        }
    }
}

} // verus!
