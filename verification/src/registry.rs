//! Spec-level view of the membership registry and its side tables:
//! members with strikes, suspended accounts, sponsorship records and
//! payout queues.

use vstd::prelude::*;
use crate::types::{Member, PayoutEntry, PayoutQueue, VouchEntry};

verus! {

/// Account `w` is one of the members in `s`.
pub open spec fn in_members(s: Seq<Member>, w: u64) -> bool {
    exists|i: int| 0 <= i < s.len() && s[i].who == w
}

/// One row per member account.
pub open spec fn members_uniq(s: Seq<Member>) -> bool {
    forall|i: int, j: int| 0 <= i < j < s.len() ==> s[i].who != s[j].who
}

/// The index of `w`'s row (meaningful when present and unique).
pub open spec fn member_index(s: Seq<Member>, w: u64) -> int {
    choose|i: int| 0 <= i < s.len() && s[i].who == w
}

/// Account `w` appears in the plain account list `s`.
pub open spec fn in_list(s: Seq<u64>, w: u64) -> bool {
    exists|i: int| 0 <= i < s.len() && s[i] == w
}

/// No repeated account in the list.
pub open spec fn list_uniq(s: Seq<u64>) -> bool {
    forall|i: int, j: int| 0 <= i < j < s.len() ==> s[i] != s[j]
}

/// Sponsor `w` has a sponsorship record in `s`.
pub open spec fn in_vouching(s: Seq<VouchEntry>, w: u64) -> bool {
    exists|i: int| 0 <= i < s.len() && s[i].sponsor == w
}

/// One record per sponsor.
pub open spec fn vouching_uniq(s: Seq<VouchEntry>) -> bool {
    forall|i: int, j: int| 0 <= i < j < s.len() ==> s[i].sponsor != s[j].sponsor
}

/// Account `w` has a payout queue in `s`.
pub open spec fn in_payouts(s: Seq<PayoutQueue>, w: u64) -> bool {
    exists|i: int| 0 <= i < s.len() && s[i].who == w
}

/// One queue per account.
pub open spec fn payouts_uniq(s: Seq<PayoutQueue>) -> bool {
    forall|i: int, j: int| 0 <= i < j < s.len() ==> s[i].who != s[j].who
}

/// Payout entries mature in order.
pub open spec fn entries_sorted(s: Seq<PayoutEntry>) -> bool {
    forall|i: int, j: int| 0 <= i < j < s.len() ==> s[i].when <= s[j].when
}

/// Sum of the entries already matured at `now`.
pub open spec fn matured_sum(s: Seq<PayoutEntry>, now: u64) -> int
    decreases s.len(),
{
    if s.len() == 0 {
        0
    } else {
        matured_sum(s.drop_last(), now) + if s.last().when <= now {
            s.last().amount as int
        } else {
            0int
        }
    }
}

/// The entries still waiting at `now`, in their stored order.
pub open spec fn unmatured(s: Seq<PayoutEntry>, now: u64) -> Seq<PayoutEntry>
    decreases s.len(),
{
    if s.len() == 0 {
        Seq::empty()
    } else if s.last().when <= now {
        unmatured(s.drop_last(), now)
    } else {
        unmatured(s.drop_last(), now).push(s.last())
    }
}

/// Some entry has matured at `now`.
pub open spec fn has_matured(s: Seq<PayoutEntry>, now: u64) -> bool {
    exists|i: int| 0 <= i < s.len() && s[i].when <= now
}

/// How pushing a member moves membership and uniqueness.
pub proof fn lemma_members_push(s: Seq<Member>, m: Member)
    ensures
        forall|w: u64| #[trigger] in_members(s.push(m), w) <==> (in_members(s, w) || w == m.who),
        !in_members(s, m.who) && members_uniq(s) ==> members_uniq(s.push(m)),
{
    let t = s.push(m);
    assert forall|w: u64| #[trigger] in_members(t, w) <==> (in_members(s, w) || w == m.who) by {
        if in_members(t, w) {
            let i = choose|i: int| 0 <= i < t.len() && t[i].who == w;
            if i < s.len() {
                assert(s[i].who == w);
            }
        }
        if in_members(s, w) {
            let i = choose|i: int| 0 <= i < s.len() && s[i].who == w;
            assert(t[i].who == w);
        }
        if w == m.who {
            assert(t[s.len() as int].who == w);
        }
    }
    if !in_members(s, m.who) && members_uniq(s) {
        assert forall|i: int, j: int| 0 <= i < j < t.len() implies t[i].who != t[j].who by {
            if j == s.len() {
                assert(!(s[i].who == m.who));
            }
        }
    }
}

/// How removing the member at `i` moves membership.
pub proof fn lemma_members_remove(s: Seq<Member>, i: int)
    requires
        0 <= i < s.len(),
    ensures
        forall|w: u64| #[trigger] in_members(s.remove(i), w) ==> in_members(s, w),
        forall|w: u64| in_members(s, w) && w != s[i].who ==> #[trigger] in_members(s.remove(i), w),
        members_uniq(s) ==> !in_members(s.remove(i), s[i].who),
        members_uniq(s) ==> members_uniq(s.remove(i)),
{
    let t = s.remove(i);
    assert forall|w: u64| #[trigger] in_members(t, w) ==> in_members(s, w) by {
        if in_members(t, w) {
            let j = choose|j: int| 0 <= j < t.len() && t[j].who == w;
            if j < i {
                assert(s[j].who == w);
            } else {
                assert(s[j + 1].who == w);
            }
        }
    }
    assert forall|w: u64| in_members(s, w) && w != s[i].who
        implies #[trigger] in_members(t, w) by {
        let j = choose|j: int| 0 <= j < s.len() && s[j].who == w;
        if j < i {
            assert(t[j].who == w);
        } else {
            assert(t[j - 1].who == w);
        }
    }
    if members_uniq(s) {
        assert(!in_members(t, s[i].who)) by {
            if in_members(t, s[i].who) {
                let j = choose|j: int| 0 <= j < t.len() && t[j].who == s[i].who;
                if j < i {
                    assert(s[j].who == s[i].who);
                } else {
                    assert(s[j + 1].who == s[i].who);
                }
            }
        }
    }
}

/// Replacing a row without changing its account keeps membership and
/// uniqueness as they were.
pub proof fn lemma_members_update(s: Seq<Member>, i: int, m: Member)
    requires
        0 <= i < s.len(),
        s[i].who == m.who,
    ensures
        forall|w: u64| #[trigger] in_members(s.update(i, m), w) <==> in_members(s, w),
        members_uniq(s) ==> members_uniq(s.update(i, m)),
{
    let t = s.update(i, m);
    assert forall|w: u64| #[trigger] in_members(t, w) <==> in_members(s, w) by {
        if in_members(t, w) {
            let j = choose|j: int| 0 <= j < t.len() && t[j].who == w;
            assert(s[j].who == w || s[i].who == w);
        }
        if in_members(s, w) {
            let j = choose|j: int| 0 <= j < s.len() && s[j].who == w;
            assert(t[j].who == w || t[i].who == w);
        }
    }
}

/// How pushing onto a plain account list moves membership.
pub proof fn lemma_list_push(s: Seq<u64>, x: u64)
    ensures
        forall|w: u64| #[trigger] in_list(s.push(x), w) <==> (in_list(s, w) || w == x),
        !in_list(s, x) && list_uniq(s) ==> list_uniq(s.push(x)),
{
    let t = s.push(x);
    assert forall|w: u64| #[trigger] in_list(t, w) <==> (in_list(s, w) || w == x) by {
        if in_list(t, w) {
            let i = choose|i: int| 0 <= i < t.len() && t[i] == w;
            if i < s.len() {
                assert(s[i] == w);
            }
        }
        if in_list(s, w) {
            let i = choose|i: int| 0 <= i < s.len() && s[i] == w;
            assert(t[i] == w);
        }
        if w == x {
            assert(t[s.len() as int] == w);
        }
    }
    if !in_list(s, x) && list_uniq(s) {
        assert forall|i: int, j: int| 0 <= i < j < t.len() implies t[i] != t[j] by {
            if j == s.len() {
                assert(!(s[i] == x));
            }
        }
    }
}

/// How removing index `i` from a plain account list moves membership.
pub proof fn lemma_list_remove(s: Seq<u64>, i: int)
    requires
        0 <= i < s.len(),
    ensures
        forall|w: u64| #[trigger] in_list(s.remove(i), w) ==> in_list(s, w),
        forall|w: u64| in_list(s, w) && w != s[i] ==> #[trigger] in_list(s.remove(i), w),
        list_uniq(s) ==> !in_list(s.remove(i), s[i]),
        list_uniq(s) ==> list_uniq(s.remove(i)),
{
    let t = s.remove(i);
    assert forall|w: u64| #[trigger] in_list(t, w) ==> in_list(s, w) by {
        if in_list(t, w) {
            let j = choose|j: int| 0 <= j < t.len() && t[j] == w;
            if j < i {
                assert(s[j] == w);
            } else {
                assert(s[j + 1] == w);
            }
        }
    }
    assert forall|w: u64| in_list(s, w) && w != s[i] implies #[trigger] in_list(t, w) by {
        let j = choose|j: int| 0 <= j < s.len() && s[j] == w;
        if j < i {
            assert(t[j] == w);
        } else {
            assert(t[j - 1] == w);
        }
    }
    if list_uniq(s) {
        assert(!in_list(t, s[i])) by {
            if in_list(t, s[i]) {
                let j = choose|j: int| 0 <= j < t.len() && t[j] == s[i];
                if j < i {
                    assert(s[j] == s[i]);
                } else {
                    assert(s[j + 1] == s[i]);
                }
            }
        }
    }
}

/// How pushing a sponsorship record moves membership.
pub proof fn lemma_vouching_push(s: Seq<VouchEntry>, v: VouchEntry)
    ensures
        forall|w: u64| #[trigger] in_vouching(s.push(v), w)
            <==> (in_vouching(s, w) || w == v.sponsor),
        !in_vouching(s, v.sponsor) && vouching_uniq(s) ==> vouching_uniq(s.push(v)),
{
    let t = s.push(v);
    assert forall|w: u64| #[trigger] in_vouching(t, w)
        <==> (in_vouching(s, w) || w == v.sponsor) by {
        if in_vouching(t, w) {
            let i = choose|i: int| 0 <= i < t.len() && t[i].sponsor == w;
            if i < s.len() {
                assert(s[i].sponsor == w);
            }
        }
        if in_vouching(s, w) {
            let i = choose|i: int| 0 <= i < s.len() && s[i].sponsor == w;
            assert(t[i].sponsor == w);
        }
        if w == v.sponsor {
            assert(t[s.len() as int].sponsor == w);
        }
    }
    if !in_vouching(s, v.sponsor) && vouching_uniq(s) {
        assert forall|i: int, j: int| 0 <= i < j < t.len()
            implies t[i].sponsor != t[j].sponsor by {
            if j == s.len() {
                assert(!(s[i].sponsor == v.sponsor));
            }
        }
    }
}

/// How removing the record at `i` moves membership.
pub proof fn lemma_vouching_remove(s: Seq<VouchEntry>, i: int)
    requires
        0 <= i < s.len(),
    ensures
        forall|w: u64| #[trigger] in_vouching(s.remove(i), w) ==> in_vouching(s, w),
        forall|w: u64| in_vouching(s, w) && w != s[i].sponsor
            ==> #[trigger] in_vouching(s.remove(i), w),
        vouching_uniq(s) ==> !in_vouching(s.remove(i), s[i].sponsor),
        vouching_uniq(s) ==> vouching_uniq(s.remove(i)),
{
    let t = s.remove(i);
    assert forall|w: u64| #[trigger] in_vouching(t, w) ==> in_vouching(s, w) by {
        if in_vouching(t, w) {
            let j = choose|j: int| 0 <= j < t.len() && t[j].sponsor == w;
            if j < i {
                assert(s[j].sponsor == w);
            } else {
                assert(s[j + 1].sponsor == w);
            }
        }
    }
    assert forall|w: u64| in_vouching(s, w) && w != s[i].sponsor
        implies #[trigger] in_vouching(t, w) by {
        let j = choose|j: int| 0 <= j < s.len() && s[j].sponsor == w;
        if j < i {
            assert(t[j].sponsor == w);
        } else {
            assert(t[j - 1].sponsor == w);
        }
    }
    if vouching_uniq(s) {
        assert(!in_vouching(t, s[i].sponsor)) by {
            if in_vouching(t, s[i].sponsor) {
                let j = choose|j: int| 0 <= j < t.len() && t[j].sponsor == s[i].sponsor;
                if j < i {
                    assert(s[j].sponsor == s[i].sponsor);
                } else {
                    assert(s[j + 1].sponsor == s[i].sponsor);
                }
            }
        }
    }
}

/// Replacing a record without changing its sponsor keeps membership
/// and uniqueness as they were.
pub proof fn lemma_vouching_update(s: Seq<VouchEntry>, i: int, v: VouchEntry)
    requires
        0 <= i < s.len(),
        s[i].sponsor == v.sponsor,
    ensures
        forall|w: u64| #[trigger] in_vouching(s.update(i, v), w) <==> in_vouching(s, w),
        vouching_uniq(s) ==> vouching_uniq(s.update(i, v)),
{
    let t = s.update(i, v);
    assert forall|w: u64| #[trigger] in_vouching(t, w) <==> in_vouching(s, w) by {
        if in_vouching(t, w) {
            let j = choose|j: int| 0 <= j < t.len() && t[j].sponsor == w;
            assert(s[j].sponsor == w || s[i].sponsor == w);
        }
        if in_vouching(s, w) {
            let j = choose|j: int| 0 <= j < s.len() && s[j].sponsor == w;
            assert(t[j].sponsor == w || t[i].sponsor == w);
        }
    }
}

} // verus!
