//! Library-wide laws, stated over the same spec functions the
//! operation contracts use. Each holds in every state the operations
//! can reach, because every operation requires and re-establishes
//! [`Society::inv`].

use vstd::prelude::*;
use crate::ledger::{lemma_account_absent, lemma_account_lookup, reserved_of, uniq_accounts, Account};
use crate::pool::{bids_sorted, bids_uniq, dep_amt, dep_of, lemma_dep_nonneg};
use crate::society::Society;
use crate::types::Bid;

verus! {

/// Total money the ledger holds reserved, over all accounts.
pub open spec fn reserved_total(s: Seq<Account>) -> int
    decreases s.len(),
{
    if s.len() == 0 {
        0
    } else {
        reserved_total(s.drop_last()) + s.last().reserved
    }
}

/// Total deposit locked by a pool of bids.
pub open spec fn dep_total(s: Seq<Bid>) -> int
    decreases s.len(),
{
    if s.len() == 0 {
        0
    } else {
        dep_total(s.drop_last()) + dep_amt(s.last())
    }
}

/// Deposits in `b` booked to the account rows of `rows`, one share per
/// row.
spec fn row_dep_sum(rows: Seq<Account>, b: Seq<Bid>) -> int
    decreases rows.len(),
{
    if rows.len() == 0 {
        0
    } else {
        row_dep_sum(rows.drop_last(), b) + dep_of(b, rows.last().who)
    }
}

/// An account row is in the ledger.
spec fn has_account(s: Seq<Account>, w: u64) -> bool {
    exists|i: int| 0 <= i < s.len() && s[i].who == w
}

/// Deposits of bids whose bidder has no ledger row.
spec fn off_ledger_dep(rows: Seq<Account>, b: Seq<Bid>) -> int
    decreases b.len(),
{
    if b.len() == 0 {
        0
    } else {
        off_ledger_dep(rows, b.drop_last()) + if has_account(rows, b.last().who) {
            0int
        } else {
            dep_amt(b.last())
        }
    }
}

/// With unique rows, the reserved total is the row-by-row sum of the
/// per-account reservations.
proof fn lemma_reserved_total_by_rows(rows: Seq<Account>, led: Seq<Account>)
    requires
        uniq_accounts(led),
        forall|k: int| 0 <= k < rows.len() ==> rows[k] == led[k],
        rows.len() <= led.len(),
    ensures
        reserved_total(rows) == row_reserved_sum(rows, led),
    decreases rows.len(),
{
    if rows.len() > 0 {
        lemma_reserved_total_by_rows(rows.drop_last(), led);
        assert(led[rows.len() - 1] == rows.last());
        lemma_account_lookup(led, rows.len() - 1);
    }
}

/// The per-account reservations of `led`, summed over the rows.
spec fn row_reserved_sum(rows: Seq<Account>, led: Seq<Account>) -> int
    decreases rows.len(),
{
    if rows.len() == 0 {
        0
    } else {
        row_reserved_sum(rows.drop_last(), led) + reserved_of(led, rows.last().who)
    }
}

/// Summing one bid's contribution over unique rows pays it exactly
/// once, to its own row, when it has one.
proof fn lemma_row_contribution(rows: Seq<Account>, x: u64, k: int)
    requires
        uniq_accounts(rows),
    ensures
        row_flag_sum(rows, x, k) == if has_account(rows, x) {
            k
        } else {
            0int
        },
    decreases rows.len(),
{
    if rows.len() == 0 {
        assert(!has_account(rows, x)) by {
            if has_account(rows, x) {
                let i = choose|i: int| 0 <= i < rows.len() && rows[i].who == x;
            }
        }
    } else {
        let d = rows.drop_last();
        assert(uniq_accounts(d)) by {
            assert forall|p: int, q: int| 0 <= p < q < d.len()
                implies d[p].who != d[q].who by {
                assert(rows[p].who != rows[q].who);
            }
        }
        lemma_row_contribution(d, x, k);
        if rows.last().who == x {
            assert(!has_account(d, x)) by {
                if has_account(d, x) {
                    let i = choose|i: int| 0 <= i < d.len() && d[i].who == x;
                    assert(rows[i].who == rows[rows.len() - 1].who);
                }
            }
            assert(has_account(rows, x)) by {
                assert(rows[rows.len() - 1].who == x);
            }
        } else {
            assert(has_account(d, x) <==> has_account(rows, x)) by {
                if has_account(d, x) {
                    let i = choose|i: int| 0 <= i < d.len() && d[i].who == x;
                    assert(rows[i].who == x);
                }
                if has_account(rows, x) {
                    let i = choose|i: int| 0 <= i < rows.len() && rows[i].who == x;
                    assert(d[i].who == x);
                }
            }
        }
    }
}

/// `k` once per row whose account is `x`.
spec fn row_flag_sum(rows: Seq<Account>, x: u64, k: int) -> int
    decreases rows.len(),
{
    if rows.len() == 0 {
        0
    } else {
        row_flag_sum(rows.drop_last(), x, k) + if rows.last().who == x {
            k
        } else {
            0int
        }
    }
}

/// Splitting the pool's total deposit between rows and off-ledger bids.
proof fn lemma_row_dep_split(rows: Seq<Account>, b: Seq<Bid>)
    requires
        uniq_accounts(rows),
    ensures
        row_dep_sum(rows, b) == dep_total(b) - off_ledger_dep(rows, b),
    decreases b.len(),
{
    if b.len() == 0 {
        assert(b =~= Seq::<Bid>::empty());
        lemma_row_dep_zero(rows);
    } else {
        let b2 = b.drop_last();
        lemma_row_dep_split(rows, b2);
        let x = b.last().who;
        let k = dep_amt(b.last());
        assert(row_dep_sum(rows, b) == row_dep_sum(rows, b2) + row_flag_sum(rows, x, k)) by {
            lemma_row_dep_step(rows, b);
        }
        lemma_row_contribution(rows, x, k);
    }
}

/// Over an empty pool, each row's share is zero.
proof fn lemma_row_dep_zero(rows: Seq<Account>)
    ensures
        row_dep_sum(rows, Seq::<Bid>::empty()) == 0,
    decreases rows.len(),
{
    if rows.len() > 0 {
        lemma_row_dep_zero(rows.drop_last());
    }
}

/// Adding one bid adds its contribution to each row's share.
proof fn lemma_row_dep_step(rows: Seq<Account>, b: Seq<Bid>)
    requires
        b.len() > 0,
    ensures
        row_dep_sum(rows, b) == row_dep_sum(rows, b.drop_last())
            + row_flag_sum(rows, b.last().who, dep_amt(b.last())),
    decreases rows.len(),
{
    if rows.len() > 0 {
        lemma_row_dep_step(rows.drop_last(), b);
    }
}

/// Bids with no ledger row lock nothing when the per-account equation
/// holds.
proof fn lemma_off_ledger_zero(led: Seq<Account>, b: Seq<Bid>, full: Seq<Bid>)
    requires
        forall|w: u64| !has_account(led, w) ==> #[trigger] dep_of(full, w) == 0,
        forall|w: u64| #[trigger] dep_of(b, w) <= dep_of(full, w),
        forall|w: u64| #[trigger] dep_of(b, w) >= 0,
    ensures
        off_ledger_dep(led, b) == 0,
    decreases b.len(),
{
    if b.len() > 0 {
        let b2 = b.drop_last();
        lemma_dep_nonneg(b2);
        assert forall|w: u64| #[trigger] dep_of(b2, w) <= dep_of(full, w) by {
            assert(dep_of(b, w) == dep_of(b2, w) + if b.last().who == w {
                dep_amt(b.last())
            } else {
                0int
            });
        }
        lemma_off_ledger_zero(led, b2, full);
        if !has_account(led, b.last().who) {
            let x = b.last().who;
            assert(dep_of(b, x) == dep_of(b2, x) + dep_amt(b.last()));
            assert(dep_of(b, x) >= dep_amt(b.last())) by {
                lemma_dep_nonneg(b2);
            }
            assert(dep_of(full, x) == 0);
        }
    }
}

/// Law: however `bid` and `unbid` (and every other operation) are
/// interleaved, the bid pool never holds two bids from the same
/// account, it stays ranked ascending by value, and the ledger's
/// reservation for each account is exactly the deposit locked by that
/// account's outstanding bid, candidacy or suspended candidacy. In a
/// state reached by bids and withdrawals alone — no candidacies — the
/// reservations are exactly the outstanding deposit-bid amounts.
pub proof fn lemma_bid_pool_accounting(s: Society)
    requires
        s.inv(),
    ensures
        bids_uniq(s.bids@),
        bids_sorted(s.bids@),
        forall|w: u64| #[trigger] s.ledger.reserved(w) == dep_of(s.bids@, w)
            + dep_of(s.candidates@, w) + dep_of(s.suspended_candidates@, w),
        s.candidates@.len() == 0 && s.suspended_candidates@.len() == 0
            ==> forall|w: u64| #[trigger] s.ledger.reserved(w) == dep_of(s.bids@, w),
{
    assert forall|w: u64| #[trigger] s.ledger.reserved(w) == dep_of(s.bids@, w)
        + dep_of(s.candidates@, w) + dep_of(s.suspended_candidates@, w) by {
        assert(s.ledger.reserved(w) == s.owed(w));
    }
}

/// Law: with no candidacies outstanding — as after any sequence of
/// `bid` and `unbid` calls alone — the total the ledger holds reserved
/// equals the sum of the outstanding deposit-kind bid amounts.
pub proof fn lemma_total_reserved_matches_deposits(s: Society)
    requires
        s.inv(),
        s.candidates@.len() == 0,
        s.suspended_candidates@.len() == 0,
    ensures
        reserved_total(s.ledger.accounts@) == dep_total(s.bids@),
{
    let led = s.ledger.accounts@;
    let b = s.bids@;
    lemma_dep_nonneg(b);
    assert forall|w: u64| !has_account(led, w) implies #[trigger] dep_of(b, w) == 0 by {
        lemma_account_absent(led, w);
        assert(s.ledger.reserved(w) == s.owed(w));
        assert(dep_of(s.candidates@, w) == 0);
        assert(dep_of(s.suspended_candidates@, w) == 0);
    }
    assert forall|w: u64| #[trigger] dep_of(b, w) <= dep_of(b, w) by {}
    lemma_off_ledger_zero(led, b, b);
    lemma_row_dep_split(led, b);
    lemma_reserved_total_by_rows(led, led);
    assert(row_reserved_sum(led, led) == row_dep_sum(led, b)) by {
        lemma_row_sums_agree(led, led, b, s);
    }
}

/// Pointwise, each row's reservation is its share of the pool.
proof fn lemma_row_sums_agree(rows: Seq<Account>, led: Seq<Account>, b: Seq<Bid>, s: Society)
    requires
        s.inv(),
        s.candidates@.len() == 0,
        s.suspended_candidates@.len() == 0,
        led == s.ledger.accounts@,
        b == s.bids@,
    ensures
        row_reserved_sum(rows, led) == row_dep_sum(rows, b),
    decreases rows.len(),
{
    if rows.len() > 0 {
        lemma_row_sums_agree(rows.drop_last(), led, b, s);
        let w = rows.last().who;
        assert(s.ledger.reserved(w) == s.owed(w));
        assert(dep_of(s.candidates@, w) == 0);
        assert(dep_of(s.suspended_candidates@, w) == 0);
    }
}

/// Law: an account is in at most one lifecycle state at a time — the
/// member table, the candidate slate, the suspended members, the
/// suspended candidates and the bid pool are pairwise disjoint.
pub proof fn lemma_lifecycle_disjoint(s: Society, w: u64)
    requires
        s.inv(),
    ensures
        !(s.is_member(w) && s.is_candidate(w)),
        !(s.is_member(w) && s.is_suspended_member(w)),
        !(s.is_member(w) && s.is_suspended_candidate(w)),
        !(s.is_member(w) && s.is_bidder(w)),
        !(s.is_candidate(w) && s.is_suspended_member(w)),
        !(s.is_candidate(w) && s.is_suspended_candidate(w)),
        !(s.is_candidate(w) && s.is_bidder(w)),
        !(s.is_suspended_member(w) && s.is_suspended_candidate(w)),
        !(s.is_suspended_member(w) && s.is_bidder(w)),
        !(s.is_suspended_candidate(w) && s.is_bidder(w)),
{
}


} // verus!
