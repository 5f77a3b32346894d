//! The balance ledger: free and reserved funds per account.
//!
//! The society reserves a bid deposit from the bidder, releases it when
//! the candidate is admitted or withdraws, and forfeits it into the pot
//! when a suspended candidate is rejected. The ledger is a flat table of
//! accounts with unique keys; its contracts are stated over the spec
//! sums [`free_of`], [`reserved_of`] and [`funds`].

use vstd::prelude::*;

verus! {

/// One account row: `free` is spendable, `reserved` is locked by the
/// society on the account's behalf.
#[derive(Clone, Copy, PartialEq, Eq, Structural, Debug)]
pub struct Account {
    pub who: u64,
    pub free: u64,
    pub reserved: u64,
}

/// Free balance booked to `w` (0 when absent).
pub open spec fn free_of(s: Seq<Account>, w: u64) -> int
    decreases s.len(),
{
    if s.len() == 0 {
        0
    } else {
        free_of(s.drop_last(), w) + if s.last().who == w {
            s.last().free as int
        } else {
            0int
        }
    }
}

/// Reserved balance booked to `w` (0 when absent).
pub open spec fn reserved_of(s: Seq<Account>, w: u64) -> int
    decreases s.len(),
{
    if s.len() == 0 {
        0
    } else {
        reserved_of(s.drop_last(), w) + if s.last().who == w {
            s.last().reserved as int
        } else {
            0int
        }
    }
}

/// Total money held by the ledger, free and reserved together.
pub open spec fn funds(s: Seq<Account>) -> int
    decreases s.len(),
{
    if s.len() == 0 {
        0
    } else {
        funds(s.drop_last()) + s.last().free + s.last().reserved
    }
}

/// No two rows share an account id.
pub open spec fn uniq_accounts(s: Seq<Account>) -> bool {
    forall|i: int, j: int| 0 <= i < j < s.len() ==> s[i].who != s[j].who
}

/// All three sums are non-negative.
pub proof fn lemma_sums_nonneg(s: Seq<Account>)
    ensures
        funds(s) >= 0,
        forall|w: u64| #[trigger] free_of(s, w) >= 0,
        forall|w: u64| #[trigger] reserved_of(s, w) >= 0,
    decreases s.len(),
{
    if s.len() > 0 {
        lemma_sums_nonneg(s.drop_last());
        assert forall|w: u64| #[trigger] free_of(s, w) >= 0 by {
            assert(free_of(s.drop_last(), w) >= 0);
        }
        assert forall|w: u64| #[trigger] reserved_of(s, w) >= 0 by {
            assert(reserved_of(s.drop_last(), w) >= 0);
        }
    } else {
        assert forall|w: u64| #[trigger] free_of(s, w) >= 0 by {}
        assert forall|w: u64| #[trigger] reserved_of(s, w) >= 0 by {}
    }
}

/// A single row holds at most the ledger's total funds.
pub proof fn lemma_entry_le_funds(s: Seq<Account>, i: int)
    requires
        0 <= i < s.len(),
    ensures
        s[i].free + s[i].reserved <= funds(s),
    decreases s.len(),
{
    lemma_sums_nonneg(s.drop_last());
    if i < s.len() - 1 {
        lemma_entry_le_funds(s.drop_last(), i);
    }
}

/// One account's money is at most the ledger's total funds.
pub proof fn lemma_account_le_funds(s: Seq<Account>, w: u64)
    ensures
        free_of(s, w) + reserved_of(s, w) <= funds(s),
    decreases s.len(),
{
    if s.len() > 0 {
        lemma_account_le_funds(s.drop_last(), w);
        lemma_sums_nonneg(s.drop_last());
    }
}

/// With no row for `w`, both sums are zero.
pub proof fn lemma_account_absent(s: Seq<Account>, w: u64)
    requires
        forall|j: int| 0 <= j < s.len() ==> s[j].who != w,
    ensures
        free_of(s, w) == 0,
        reserved_of(s, w) == 0,
    decreases s.len(),
{
    if s.len() > 0 {
        lemma_account_absent(s.drop_last(), w);
    }
}

/// With unique keys, the sums for a present account are that row's fields.
pub proof fn lemma_account_lookup(s: Seq<Account>, i: int)
    requires
        uniq_accounts(s),
        0 <= i < s.len(),
    ensures
        free_of(s, s[i].who) == s[i].free,
        reserved_of(s, s[i].who) == s[i].reserved,
    decreases s.len(),
{
    if i == s.len() - 1 {
        lemma_account_absent(s.drop_last(), s[i].who);
    } else {
        lemma_account_lookup(s.drop_last(), i);
    }
}

/// How replacing row `i` moves each sum.
pub proof fn lemma_account_update(s: Seq<Account>, i: int, a: Account)
    requires
        0 <= i < s.len(),
    ensures
        forall|w: u64| #[trigger] free_of(s.update(i, a), w) == free_of(s, w)
            + (if a.who == w { a.free as int } else { 0int })
            - (if s[i].who == w { s[i].free as int } else { 0int }),
        forall|w: u64| #[trigger] reserved_of(s.update(i, a), w) == reserved_of(s, w)
            + (if a.who == w { a.reserved as int } else { 0int })
            - (if s[i].who == w { s[i].reserved as int } else { 0int }),
        funds(s.update(i, a)) == funds(s) + a.free + a.reserved - s[i].free - s[i].reserved,
    decreases s.len(),
{
    let t = s.update(i, a);
    if i == s.len() - 1 {
        assert(t.drop_last() =~= s.drop_last());
        assert forall|w: u64| #[trigger] free_of(t, w) == free_of(s, w)
            + (if a.who == w { a.free as int } else { 0int })
            - (if s[i].who == w { s[i].free as int } else { 0int }) by {}
        assert forall|w: u64| #[trigger] reserved_of(t, w) == reserved_of(s, w)
            + (if a.who == w { a.reserved as int } else { 0int })
            - (if s[i].who == w { s[i].reserved as int } else { 0int }) by {}
    } else {
        assert(t.drop_last() =~= s.drop_last().update(i, a));
        lemma_account_update(s.drop_last(), i, a);
        assert forall|w: u64| #[trigger] free_of(t, w) == free_of(s, w)
            + (if a.who == w { a.free as int } else { 0int })
            - (if s[i].who == w { s[i].free as int } else { 0int }) by {
            assert(free_of(t.drop_last(), w) == free_of(s.drop_last(), w)
                + (if a.who == w { a.free as int } else { 0int })
                - (if s[i].who == w { s[i].free as int } else { 0int }));
        }
        assert forall|w: u64| #[trigger] reserved_of(t, w) == reserved_of(s, w)
            + (if a.who == w { a.reserved as int } else { 0int })
            - (if s[i].who == w { s[i].reserved as int } else { 0int }) by {
            assert(reserved_of(t.drop_last(), w) == reserved_of(s.drop_last(), w)
                + (if a.who == w { a.reserved as int } else { 0int })
                - (if s[i].who == w { s[i].reserved as int } else { 0int }));
        }
    }
}

/// How appending a row moves each sum.
pub proof fn lemma_account_push(s: Seq<Account>, a: Account)
    ensures
        forall|w: u64| #[trigger] free_of(s.push(a), w) == free_of(s, w)
            + (if a.who == w { a.free as int } else { 0int }),
        forall|w: u64| #[trigger] reserved_of(s.push(a), w) == reserved_of(s, w)
            + (if a.who == w { a.reserved as int } else { 0int }),
        funds(s.push(a)) == funds(s) + a.free + a.reserved,
{
    assert(s.push(a).drop_last() =~= s);
}

/// The balance ledger.
pub struct Ledger {
    pub accounts: Vec<Account>,
}

impl Ledger {
    /// Structural invariant: one row per account.
    pub open spec fn wf(self) -> bool {
        uniq_accounts(self.accounts@)
    }

    pub open spec fn free(self, w: u64) -> int {
        free_of(self.accounts@, w)
    }

    pub open spec fn reserved(self, w: u64) -> int {
        reserved_of(self.accounts@, w)
    }

    pub open spec fn total(self) -> int {
        funds(self.accounts@)
    }

    /// An empty ledger.
    pub fn new() -> (r: Ledger)
        ensures
            r.wf(),
            r.total() == 0,
            forall|w: u64| #[trigger] r.free(w) == 0,
            forall|w: u64| #[trigger] r.reserved(w) == 0,
    {
        Ledger { accounts: Vec::new() }
    }

    /// Index of the row for `w`, if any.
    fn find(&self, w: u64) -> (r: Option<usize>)
        ensures
            match r {
                Some(i) => i < self.accounts@.len() && self.accounts@[i as int].who == w,
                None => forall|j: int| 0 <= j < self.accounts@.len()
                    ==> self.accounts@[j].who != w,
            },
    {
        let n = self.accounts.len();
        let mut i: usize = 0;
        while i < n
            invariant
                n == self.accounts@.len(),
                i <= n,
                forall|j: int| 0 <= j < i ==> self.accounts@[j].who != w,
            decreases n - i,
        {
            if self.accounts[i].who == w {
                return Some(i);
            }
            i = i + 1;
        }
        None
    }

    /// The spendable balance of `w`.
    pub fn free_balance(&self, w: u64) -> (r: u64)
        requires
            self.wf(),
        ensures
            r == self.free(w),
    {
        match self.find(w) {
            Some(i) => {
                proof {
                    lemma_account_lookup(self.accounts@, i as int);
                }
                self.accounts[i].free
            },
            None => {
                proof {
                    lemma_account_absent(self.accounts@, w);
                }
                0
            },
        }
    }

    /// The balance currently reserved from `w`.
    pub fn reserved_balance(&self, w: u64) -> (r: u64)
        requires
            self.wf(),
        ensures
            r == self.reserved(w),
    {
        match self.find(w) {
            Some(i) => {
                proof {
                    lemma_account_lookup(self.accounts@, i as int);
                }
                self.accounts[i].reserved
            },
            None => {
                proof {
                    lemma_account_absent(self.accounts@, w);
                }
                0
            },
        }
    }

    /// Add `amount` to the free balance of `w`, creating the row if
    /// needed. The bound on the total is a machine limit: the ledger
    /// holds `u64` cells.
    pub fn credit(&mut self, w: u64, amount: u64)
        requires
            old(self).wf(),
            old(self).total() + amount <= u64::MAX,
        ensures
            final(self).wf(),
            final(self).free(w) == old(self).free(w) + amount,
            final(self).reserved(w) == old(self).reserved(w),
            forall|x: u64| x != w ==> #[trigger] final(self).free(x) == old(self).free(x),
            forall|x: u64| x != w
                ==> #[trigger] final(self).reserved(x) == old(self).reserved(x),
            final(self).total() == old(self).total() + amount,
    {
        proof {
            lemma_sums_nonneg(self.accounts@);
        }
        match self.find(w) {
            Some(i) => {
                proof {
                    lemma_account_lookup(self.accounts@, i as int);
                    lemma_entry_le_funds(self.accounts@, i as int);
                }
                let a = self.accounts[i];
                let b = Account { who: w, free: a.free + amount, reserved: a.reserved };
                proof {
                    lemma_account_update(self.accounts@, i as int, b);
                }
                self.accounts.set(i, b);
            },
            None => {
                proof {
                    lemma_account_absent(self.accounts@, w);
                    lemma_account_push(self.accounts@, Account { who: w, free: amount, reserved: 0 });
                }
                self.accounts.push(Account { who: w, free: amount, reserved: 0 });
            },
        }
    }

    /// Move `amount` of `w`'s balance from free to reserved; refuses
    /// (and changes nothing) when the free balance is short.
    pub fn reserve(&mut self, w: u64, amount: u64) -> (ok: bool)
        requires
            old(self).wf(),
            old(self).total() <= u64::MAX,
        ensures
            final(self).wf(),
            ok <==> old(self).free(w) >= amount,
            ok ==> final(self).free(w) == old(self).free(w) - amount
                && final(self).reserved(w) == old(self).reserved(w) + amount,
            !ok ==> *final(self) == *old(self),
            forall|x: u64| x != w ==> #[trigger] final(self).free(x) == old(self).free(x),
            forall|x: u64| x != w
                ==> #[trigger] final(self).reserved(x) == old(self).reserved(x),
            final(self).total() == old(self).total(),
    {
        match self.find(w) {
            Some(i) => {
                proof {
                    lemma_account_lookup(self.accounts@, i as int);
                    lemma_entry_le_funds(self.accounts@, i as int);
                    lemma_sums_nonneg(self.accounts@);
                }
                let a = self.accounts[i];
                if a.free >= amount {
                    let b = Account { who: w, free: a.free - amount, reserved: a.reserved + amount };
                    proof {
                        lemma_account_update(self.accounts@, i as int, b);
                    }
                    self.accounts.set(i, b);
                    true
                } else {
                    false
                }
            },
            None => {
                proof {
                    lemma_account_absent(self.accounts@, w);
                }
                amount == 0
            },
        }
    }

    /// Release `amount` of `w`'s reserved balance back to free. The
    /// caller must know the reservation exists.
    pub fn unreserve(&mut self, w: u64, amount: u64)
        requires
            old(self).wf(),
            old(self).total() <= u64::MAX,
            old(self).reserved(w) >= amount,
        ensures
            final(self).wf(),
            final(self).free(w) == old(self).free(w) + amount,
            final(self).reserved(w) == old(self).reserved(w) - amount,
            forall|x: u64| x != w ==> #[trigger] final(self).free(x) == old(self).free(x),
            forall|x: u64| x != w
                ==> #[trigger] final(self).reserved(x) == old(self).reserved(x),
            final(self).total() == old(self).total(),
    {
        match self.find(w) {
            Some(i) => {
                proof {
                    lemma_account_lookup(self.accounts@, i as int);
                    lemma_entry_le_funds(self.accounts@, i as int);
                    lemma_sums_nonneg(self.accounts@);
                }
                let a = self.accounts[i];
                let b = Account { who: w, free: a.free + amount, reserved: a.reserved - amount };
                proof {
                    lemma_account_update(self.accounts@, i as int, b);
                }
                self.accounts.set(i, b);
            },
            None => {
                proof {
                    lemma_account_absent(self.accounts@, w);
                }
            },
        }
    }

    /// Take `amount` out of `w`'s reserved balance entirely (the caller
    /// books it elsewhere, e.g. into the pot).
    pub fn slash_reserved(&mut self, w: u64, amount: u64)
        requires
            old(self).wf(),
            old(self).reserved(w) >= amount,
        ensures
            final(self).wf(),
            final(self).free(w) == old(self).free(w),
            final(self).reserved(w) == old(self).reserved(w) - amount,
            forall|x: u64| x != w ==> #[trigger] final(self).free(x) == old(self).free(x),
            forall|x: u64| x != w
                ==> #[trigger] final(self).reserved(x) == old(self).reserved(x),
            final(self).total() == old(self).total() - amount,
    {
        match self.find(w) {
            Some(i) => {
                proof {
                    lemma_account_lookup(self.accounts@, i as int);
                    lemma_sums_nonneg(self.accounts@);
                }
                let a = self.accounts[i];
                let b = Account { who: w, free: a.free, reserved: a.reserved - amount };
                proof {
                    lemma_account_update(self.accounts@, i as int, b);
                }
                self.accounts.set(i, b);
            },
            None => {
                proof {
                    lemma_account_absent(self.accounts@, w);
                }
            },
        }
    }

    /// Take `amount` out of `w`'s free balance entirely (the caller
    /// books it elsewhere, e.g. into the pot). Refuses, and changes
    /// nothing, when the free balance is short.
    pub fn withdraw(&mut self, w: u64, amount: u64) -> (ok: bool)
        requires
            old(self).wf(),
        ensures
            final(self).wf(),
            ok <==> old(self).free(w) >= amount,
            !ok ==> *final(self) == *old(self),
            ok ==> final(self).free(w) == old(self).free(w) - amount,
            forall|x: u64| #[trigger] final(self).reserved(x) == old(self).reserved(x),
            forall|x: u64| x != w ==> #[trigger] final(self).free(x) == old(self).free(x),
            ok ==> final(self).total() == old(self).total() - amount,
    {
        match self.find(w) {
            Some(i) => {
                proof {
                    lemma_account_lookup(self.accounts@, i as int);
                }
                let a = self.accounts[i];
                if a.free >= amount {
                    let b = Account { who: w, free: a.free - amount, reserved: a.reserved };
                    proof {
                        lemma_account_update(self.accounts@, i as int, b);
                    }
                    self.accounts.set(i, b);
                    true
                } else {
                    false
                }
            },
            None => {
                proof {
                    lemma_account_absent(self.accounts@, w);
                }
                amount == 0
            },
        }
    }
}

} // verus!
