//! Escrow: the stakes locked on open proposals never exceed the balances
//! that back them.
//!
//! The room keeps locks inside its open proposals and balances in its cache
//! of the log. This module holds the accounting facts that show every
//! command keeps each user's locks within their balance.

use vstd::prelude::*;

use crate::amount::TOKEN;
use crate::idmap::{
    entries_wf, has_key, index_of_key, insert_position, insert_spec, lemma_index_of_key,
    lemma_insert_position_range, lemma_insert_spec_keys, lemma_update_value_keeps_wf, value_at_key,
};
use crate::order::{insert_sorted, lex_lt, sort_by_key, Keyed};
use crate::proposal::{locked_in, locked_spec, UserCommitment};
use crate::room::{locks_total, losers_of, opened_paid, tick_spec, unopened_paid, Commitments, Proposals};
use crate::payout::payout_sum;
use crate::settlement::Payout;
use crate::types::UserId;

verus! {

/// Stakes the user with key `k` has locked across `props`, summed exactly.
pub open spec fn locks_sum(props: Proposals, k: Seq<u8>) -> int
    decreases props.len(),
{
    if props.len() == 0 {
        0
    } else {
        locks_sum(props.drop_last(), k) + locked_in(props.last().1.commitments@, k)
    }
}

/// The capped running sum equals the exact one while the exact one fits.
pub proof fn lemma_locks_total_exact(props: Proposals, k: Seq<u8>)
    ensures
        locks_sum(props, k) >= 0,
        locks_sum(props, k) <= u64::MAX ==> locks_total(props, k) == locks_sum(props, k),
    decreases props.len(),
{
    if props.len() > 0 {
        lemma_locks_total_exact(props.drop_last(), k);
    }
}

/// Replacing the entry at `x` changes the sum by the difference of the two locks.
pub proof fn lemma_locks_update(props: Proposals, x: int, e: (crate::types::ProposalId, crate::proposal::Proposal), k: Seq<u8>)
    requires
        0 <= x < props.len(),
    ensures
        locks_sum(props.update(x, e), k) == locks_sum(props, k) - locked_in(props[x].1.commitments@, k)
            + locked_in(e.1.commitments@, k),
    decreases props.len(),
{
    let t = props.update(x, e);
    if x == props.len() - 1 {
        assert(t.drop_last() =~= props.drop_last());
    } else {
        assert(t.drop_last() =~= props.drop_last().update(x, e));
        lemma_locks_update(props.drop_last(), x, e, k);
    }
}

/// Inserting an entry adds its lock to the sum.
pub proof fn lemma_locks_insert(props: Proposals, x: int, e: (crate::types::ProposalId, crate::proposal::Proposal), k: Seq<u8>)
    requires
        0 <= x <= props.len(),
    ensures
        locks_sum(props.insert(x, e), k) == locks_sum(props, k) + locked_in(e.1.commitments@, k),
    decreases props.len(),
{
    let t = props.insert(x, e);
    if x == props.len() {
        assert(t.drop_last() =~= props);
    } else {
        assert(t.drop_last() =~= props.drop_last().insert(x, e));
        lemma_locks_insert(props.drop_last(), x, e, k);
    }
}

/// Removing the entry at `x` takes its lock out of the sum.
pub proof fn lemma_locks_remove(props: Proposals, x: int, k: Seq<u8>)
    requires
        0 <= x < props.len(),
    ensures
        locks_sum(props.remove(x), k) == locks_sum(props, k) - locked_in(props[x].1.commitments@, k),
{
    assert(props.remove(x).insert(x, props[x]) =~= props);
    lemma_locks_insert(props.remove(x), x, props[x], k);
}

/// Advancing the clock moves no stake.
pub proof fn lemma_locks_tick(props: Proposals, now: u64, k: Seq<u8>)
    ensures
        locks_sum(tick_spec(props, now), k) == locks_sum(props, k),
    decreases props.len(),
{
    if props.len() > 0 {
        let t = tick_spec(props, now);
        assert(t.drop_last() =~= tick_spec(props.drop_last(), now));
        lemma_locks_tick(props.drop_last(), now, k);
        assert(t.last().1.commitments == props.last().1.commitments);
    }
}

/// A first commitment by a user with none adds exactly its lock to that user
/// and nothing to anyone else.
#[verifier::spinoff_prover]
pub proof fn lemma_locked_in_fresh(s: Seq<(UserId, UserCommitment)>, u: UserId, c: UserCommitment, k: Seq<u8>)
    requires
        entries_wf(s),
        entries_wf(insert_spec(s, u, c)),
        !has_key(s, u@),
    ensures
        locked_in(insert_spec(s, u, c), k) == (if k == u@ {
            locked_spec(c)
        } else {
            locked_in(s, k)
        }),
{
    let x = insert_position(s, u@);
    let t = insert_spec(s, u, c);
    assert(t == s.insert(x, (u, c)) && 0 <= x <= s.len()) by {
        lemma_insert_position_range(s, u@);
    }
    assert(has_key(t, k) == (has_key(s, k) || k == u@)) by {
        lemma_insert_spec_keys(s, u, c, k);
    }
    if k == u@ {
        assert(t[x] == (u, c));
        lemma_index_of_key(t, x);
    } else if has_key(s, k) {
        let j = index_of_key(s, k);
        lemma_index_of_key(s, j);
        let j2 = if j < x { j } else { j + 1 };
        assert(t[j2] == s[j]);
        lemma_index_of_key(t, j2);
    }
}

/// Changing a commitment without changing its kind moves no stake.
#[verifier::spinoff_prover]
pub proof fn lemma_locked_in_same_kind(s: Seq<(UserId, UserCommitment)>, i: int, c: UserCommitment, k: Seq<u8>)
    requires
        entries_wf(s),
        0 <= i < s.len(),
        c.kind == s[i].1.kind,
    ensures
        locked_in(s.update(i, (s[i].0, c)), k) == locked_in(s, k),
{
    let t = s.update(i, (s[i].0, c));
    lemma_update_value_keeps_wf(s, i, c);
    assert(has_key(t, k) == has_key(s, k));
    if has_key(s, k) {
        let j = index_of_key(s, k);
        lemma_index_of_key(s, j);
        assert(t[j].0 == s[j].0);
        lemma_index_of_key(t, j);
    }
}

/// Total of the amounts in `s` for the user with key `k`.
pub open spec fn amount_for(s: Seq<Payout>, k: Seq<u8>) -> int
    decreases s.len(),
{
    if s.len() == 0 {
        0
    } else {
        amount_for(s.drop_last(), k) + (if s.last().user@ == k {
            s.last().amount@ as int
        } else {
            0
        })
    }
}

/// The per-user total of a concatenation is the sum of the two totals.
pub proof fn lemma_amount_for_concat(a: Seq<Payout>, b: Seq<Payout>, k: Seq<u8>)
    ensures
        amount_for(a + b, k) == amount_for(a, k) + amount_for(b, k),
    decreases b.len(),
{
    if b.len() == 0 {
        assert(a + b =~= a);
    } else {
        assert((a + b).drop_last() =~= a + b.drop_last());
        lemma_amount_for_concat(a, b.drop_last(), k);
    }
}

/// One insertion step keeps the per-user totals, plus the inserted amount.
proof fn lemma_amount_for_insert_sorted(s: Seq<Payout>, x: Payout, k: Seq<u8>)
    ensures
        amount_for(insert_sorted(s, x), k) == amount_for(s, k) + (if x.user@ == k {
            x.amount@ as int
        } else {
            0
        }),
    decreases s.len(),
{
    let cx: int = if x.user@ == k {
        x.amount@ as int
    } else {
        0
    };
    if s.len() == 0 {
        assert(seq![x].drop_last() =~= Seq::<Payout>::empty());
        assert(seq![x].last() == x);
        assert(amount_for(Seq::<Payout>::empty(), k) == 0);
        assert(amount_for(seq![x], k) == cx);
        assert(amount_for(insert_sorted(s, x), k) == amount_for(s, k) + cx);
    } else if lex_lt(x.key(), s.last().key()) {
        let r = insert_sorted(s.drop_last(), x);
        lemma_amount_for_insert_sorted(s.drop_last(), x, k);
        assert(insert_sorted(s, x) == r.push(s.last()));
        assert(r.push(s.last()).drop_last() =~= r);
        assert(r.push(s.last()).last() == s.last());
        assert(amount_for(r.push(s.last()), k) == amount_for(r, k) + (if s.last().user@ == k {
            s.last().amount@ as int
        } else {
            0
        }));
        assert(amount_for(insert_sorted(s, x), k) == amount_for(s, k) + cx);
    } else {
        assert(s.push(x).drop_last() =~= s);
        assert(amount_for(insert_sorted(s, x), k) == amount_for(s, k) + cx);
    }
}

/// Sorting keeps every per-user total.
pub proof fn lemma_amount_for_sort(s: Seq<Payout>, k: Seq<u8>)
    ensures
        amount_for(sort_by_key(s), k) == amount_for(s, k),
    decreases s.len(),
{
    if s.len() > 0 {
        lemma_amount_for_sort(s.drop_last(), k);
        lemma_amount_for_insert_sorted(sort_by_key(s.drop_last()), s.last(), k);
    }
}

/// A forfeit pass that succeeds takes from each user exactly their total.
pub proof fn lemma_forfeit_all_debits(st: crate::balances::Ledger, s: Seq<Payout>, k: Seq<u8>)
    ensures
        crate::balances::forfeit_all(st, s).1 is None ==> crate::balances::get0(
            crate::balances::forfeit_all(st, s).0.0,
            k,
        ) == crate::balances::get0(st.0, k) - amount_for(s, k),
    decreases s.len(),
{
    if s.len() > 0 {
        lemma_forfeit_all_debits(st, s.drop_last(), k);
    }
}

/// A payout pass that succeeds never lowers a balance.
pub proof fn lemma_payout_all_credits(st: crate::balances::Ledger, s: Seq<Payout>, k: Seq<u8>)
    ensures
        crate::balances::payout_all(st, s).1 is None ==> crate::balances::get0(
            crate::balances::payout_all(st, s).0.0,
            k,
        ) >= crate::balances::get0(st.0, k),
    decreases s.len(),
{
    if s.len() > 0 {
        lemma_payout_all_credits(st, s.drop_last(), k);
    }
}

/// The last entry's key stands alone: earlier entries hold other keys, so the
/// lock on `k` is the last entry's or the earlier entries'.
#[verifier::spinoff_prover]
proof fn lemma_locked_in_last(cs: Commitments, k: Seq<u8>)
    requires
        entries_wf(cs),
        cs.len() > 0,
    ensures
        entries_wf(cs.drop_last()),
        cs.last().0@ == k ==> locked_in(cs.drop_last(), k) == 0 && locked_in(cs, k) == locked_spec(cs.last().1),
        cs.last().0@ != k ==> locked_in(cs, k) == locked_in(cs.drop_last(), k),
{
    let init = cs.drop_last();
    let n = cs.len() - 1;
    assert(forall|i: int| 0 <= i < init.len() ==> #[trigger] init[i] == cs[i]);
    assert forall|i: int, j: int| 0 <= i < j < init.len() implies lex_lt(
        #[trigger] init[i].0.key(),
        #[trigger] init[j].0.key(),
    ) by {
        assert(init[i] == cs[i] && init[j] == cs[j]);
    }
    assert forall|i: int| 0 <= i < init.len() implies (#[trigger] init[i].0.key()).len() == 32 by {
        assert(init[i] == cs[i]);
    }
    if cs.last().0@ == k {
        lemma_index_of_key(cs, n);
        if has_key(init, k) {
            let j = index_of_key(init, k);
            assert(init[j] == cs[j]);
            assert(lex_lt(cs[j].0.key(), cs[n].0.key()));
            crate::order::lemma_lex_irreflexive(k);
        }
    } else {
        if has_key(cs, k) {
            let j = index_of_key(cs, k);
            if j == n {
                assert(cs[n] == cs.last());
            }
            assert(init[j] == cs[j]);
        }
        if has_key(init, k) {
            let j = index_of_key(init, k);
            lemma_index_of_key(init, j);
            assert(init[j] == cs[j]);
            lemma_index_of_key(cs, j);
        }
    }
}

/// What a settlement takes from a user (their unopened stake, or their opened
/// stake on the losing side) is at most what they locked on the proposal.
#[verifier::spinoff_prover]
pub proof fn lemma_forfeits_within_locks(cs: Commitments, w: crate::types::Direction, k: Seq<u8>)
    requires
        entries_wf(cs),
    ensures
        amount_for(unopened_paid(cs), k) + amount_for(losers_of(opened_paid(cs), w), k) <= locked_in(cs, k),
    decreases cs.len(),
{
    if cs.len() == 0 {
        assert(!has_key(cs, k));
    } else {
        let init = cs.drop_last();
        lemma_locked_in_last(cs, k);
        lemma_forfeits_within_locks(init, w, k);
        let (u, c) = cs.last();
        let up0 = unopened_paid(init);
        let op0 = opened_paid(init);
        match (c.kind, c.opened) {
            (crate::proposal::CommitmentKind::Paid { amount }, None) => {
                let pay = Payout { user: u, amount };
                assert(unopened_paid(cs) == up0.push(pay));
                assert(up0.push(pay).drop_last() =~= up0);
                assert(opened_paid(cs) == op0);
            },
            (crate::proposal::CommitmentKind::Paid { amount }, Some(d)) => {
                let y = (u, amount, d);
                assert(opened_paid(cs) == op0.push(y));
                assert(op0.push(y).drop_last() =~= op0);
                assert(op0.push(y).last() == y);
                assert(unopened_paid(cs) == up0);
                if d != w {
                    let pay = Payout { user: u, amount };
                    assert(losers_of(op0.push(y), w) == losers_of(op0, w).push(pay));
                    assert(losers_of(op0, w).push(pay).drop_last() =~= losers_of(op0, w));
                } else {
                    assert(losers_of(op0.push(y), w) == losers_of(op0, w));
                }
            },
            _ => {
                assert(unopened_paid(cs) == up0);
                assert(opened_paid(cs) == op0);
            },
        }
    }
}

/// Every user's locks across `props` fit in their balance in `cache`.
pub open spec fn escrow_for(props: Proposals, cache: crate::balances::Balances) -> bool {
    forall|k: Seq<u8>| #[trigger] locks_sum(props, k) <= cache.balance_of(k)
}

/// A map holding a single commitment locks its stake for its user only.
pub proof fn lemma_locked_in_single(u: UserId, c: UserCommitment, k: Seq<u8>)
    ensures
        locked_in(seq![(u, c)], k) == (if k == u@ {
            locked_spec(c)
        } else {
            0
        }),
{
    let s = seq![(u, c)];
    if k == u@ {
        assert(s[0].0.key() == k);
        assert(has_key(s, k));
        let j = index_of_key(s, k);
        assert(j == 0);
    } else {
        assert(!has_key(s, k));
    }
}

/// The entries of `s` for users other than the one with key `k`.
pub open spec fn without(s: Seq<Payout>, k: Seq<u8>) -> Seq<Payout>
    decreases s.len(),
{
    if s.len() == 0 {
        s
    } else if s.last().user@ == k {
        without(s.drop_last(), k)
    } else {
        without(s.drop_last(), k).push(s.last())
    }
}

/// Per-user totals are nonnegative and never exceed the whole sum.
pub proof fn lemma_amount_for_bounds(s: Seq<Payout>, k: Seq<u8>)
    ensures
        0 <= amount_for(s, k) <= payout_sum(s),
    decreases s.len(),
{
    if s.len() > 0 {
        lemma_amount_for_bounds(s.drop_last(), k);
    }
}

/// Taking out one user's entries takes out exactly that user's total, and
/// leaves every other user's total; the result is shorter when the last
/// entry is that user's.
pub proof fn lemma_without(s: Seq<Payout>, k: Seq<u8>, k2: Seq<u8>)
    ensures
        payout_sum(s) == payout_sum(without(s, k)) + amount_for(s, k),
        amount_for(without(s, k), k2) == (if k2 == k {
            0
        } else {
            amount_for(s, k2)
        }),
        without(s, k).len() <= s.len(),
        s.len() > 0 && s.last().user@ == k ==> without(s, k).len() < s.len(),
    decreases s.len(),
{
    if s.len() > 0 {
        lemma_without(s.drop_last(), k, k2);
        let r = without(s.drop_last(), k);
        if s.last().user@ != k {
            assert(r.push(s.last()).drop_last() =~= r);
        }
    }
}

/// One insertion step adds the inserted amount to the whole sum.
proof fn lemma_payout_sum_insert_sorted(s: Seq<Payout>, x: Payout)
    ensures
        payout_sum(insert_sorted(s, x)) == payout_sum(s) + x.amount@,
        insert_sorted(s, x).len() == s.len() + 1,
    decreases s.len(),
{
    if s.len() == 0 {
        assert(seq![x].drop_last() =~= Seq::<Payout>::empty());
        assert(seq![x].last() == x);
        assert(payout_sum(Seq::<Payout>::empty()) == 0);
    } else if lex_lt(x.key(), s.last().key()) {
        let r = insert_sorted(s.drop_last(), x);
        lemma_payout_sum_insert_sorted(s.drop_last(), x);
        assert(insert_sorted(s, x) == r.push(s.last()));
        assert(r.push(s.last()).drop_last() =~= r);
        assert(r.push(s.last()).last() == s.last());
    } else {
        assert(s.push(x).drop_last() =~= s);
    }
}

/// Sorting keeps the whole sum and the length.
pub proof fn lemma_payout_sum_sort(s: Seq<Payout>)
    ensures
        payout_sum(sort_by_key(s)) == payout_sum(s),
        sort_by_key(s).len() == s.len(),
    decreases s.len(),
{
    if s.len() > 0 {
        lemma_payout_sum_sort(s.drop_last());
        lemma_payout_sum_insert_sorted(sort_by_key(s.drop_last()), s.last());
    }
}

/// Sorting keeps the length.
pub proof fn lemma_sort_len<T: Keyed>(s: Seq<T>)
    ensures
        sort_by_key(s).len() == s.len(),
    decreases s.len(),
{
    if s.len() > 0 {
        lemma_sort_len(s.drop_last());
        lemma_insert_sorted_len(sort_by_key(s.drop_last()), s.last());
    }
}

proof fn lemma_insert_sorted_len<T: Keyed>(s: Seq<T>, x: T)
    ensures
        insert_sorted(s, x).len() == s.len() + 1,
    decreases s.len(),
{
    if s.len() > 0 && lex_lt(x.key(), s.last().key()) {
        lemma_insert_sorted_len(s.drop_last(), x);
    }
}

/// A forfeit pass succeeds when each user's total fits their balance and the
/// whole sum fits the supply; the supply then drops by the whole sum.
pub proof fn lemma_forfeit_all_succeeds(st: crate::balances::Ledger, s: Seq<Payout>)
    requires
        forall|k: Seq<u8>| #[trigger] amount_for(s, k) <= crate::balances::get0(st.0, k),
        payout_sum(s) <= st.1,
    ensures
        crate::balances::forfeit_all(st, s).1 is None,
        crate::balances::forfeit_all(st, s).0.1 == st.1 - payout_sum(s),
    decreases s.len(),
{
    if s.len() > 0 {
        let init = s.drop_last();
        let x = s.last();
        assert forall|k: Seq<u8>| #[trigger] amount_for(init, k) <= crate::balances::get0(st.0, k) by {
            assert(amount_for(s, k) == amount_for(init, k) + (if x.user@ == k {
                x.amount@ as int
            } else {
                0
            }));
        }
        lemma_amount_for_bounds(init, x.user@);
        lemma_forfeit_all_succeeds(st, init);
        lemma_forfeit_all_debits(st, init, x.user@);
        assert(amount_for(s, x.user@) <= crate::balances::get0(st.0, x.user@));
    }
}

/// A payout pass succeeds when the supply and every balance have room for
/// the whole sum; the supply then grows by the whole sum.
pub proof fn lemma_payout_all_succeeds(st: crate::balances::Ledger, s: Seq<Payout>)
    requires
        st.1 + payout_sum(s) <= u64::MAX,
        forall|k: Seq<u8>| #[trigger] crate::balances::get0(st.0, k) + payout_sum(s) <= u64::MAX,
    ensures
        crate::balances::payout_all(st, s).1 is None,
        crate::balances::payout_all(st, s).0.1 == st.1 + payout_sum(s),
    decreases s.len(),
{
    if s.len() > 0 {
        let init = s.drop_last();
        let x = s.last();
        lemma_amount_for_bounds(init, x.user@);
        lemma_amount_for_bounds(s, x.user@);
        assert forall|k: Seq<u8>| #[trigger] crate::balances::get0(st.0, k) + payout_sum(init) <= u64::MAX by {
            assert(crate::balances::get0(st.0, k) + payout_sum(s) <= u64::MAX);
        }
        lemma_payout_all_succeeds(st, init);
        lemma_payout_all_credits_exact(st, init, x.user@);
        assert(crate::balances::get0(st.0, x.user@) + payout_sum(s) <= u64::MAX);
    }
}

/// A payout pass that succeeds adds to each user exactly their total.
proof fn lemma_payout_all_credits_exact(st: crate::balances::Ledger, s: Seq<Payout>, k: Seq<u8>)
    ensures
        crate::balances::payout_all(st, s).1 is None ==> crate::balances::get0(
            crate::balances::payout_all(st, s).0.0,
            k,
        ) == crate::balances::get0(st.0, k) + amount_for(s, k),
    decreases s.len(),
{
    if s.len() > 0 {
        lemma_payout_all_credits_exact(st, s.drop_last(), k);
    }
}

/// A mint pass succeeds when the supply has room for one token per listed user.
pub proof fn lemma_mint_all_succeeds(st: crate::balances::Ledger, s: Seq<UserId>)
    requires
        st.1 + TOKEN * s.len() <= u64::MAX,
    ensures
        crate::balances::mint_all(st, s).1 is None,
        crate::balances::mint_all(st, s).0.1 <= st.1 + TOKEN * s.len(),
    decreases s.len(),
{
    if s.len() > 0 {
        lemma_mint_all_succeeds(st, s.drop_last());
    }
}

/// A mint pass can only fail for lack of room in the supply.
pub proof fn lemma_mint_all_fails_only_on_overflow(st: crate::balances::Ledger, s: Seq<UserId>)
    ensures
        crate::balances::mint_all(st, s).1 is None || crate::balances::mint_all(st, s).1 == Some(
            crate::error::Error::Overflow,
        ),
    decreases s.len(),
{
    if s.len() > 0 {
        lemma_mint_all_fails_only_on_overflow(st, s.drop_last());
    }
}

/// The user with key `k` holds a free commitment in `s`.
pub open spec fn free_in(s: Seq<(UserId, UserCommitment)>, k: Seq<u8>) -> bool {
    has_key(s, k) && value_at_key(s, k).kind is Free
}

/// A first commitment by a user with none makes them a free committer exactly
/// when it is free, and changes no one else.
#[verifier::spinoff_prover]
pub proof fn lemma_free_in_fresh(s: Seq<(UserId, UserCommitment)>, u: UserId, c: UserCommitment, k: Seq<u8>)
    requires
        entries_wf(s),
        entries_wf(insert_spec(s, u, c)),
        !has_key(s, u@),
    ensures
        free_in(insert_spec(s, u, c), k) == (if k == u@ {
            c.kind is Free
        } else {
            free_in(s, k)
        }),
{
    let x = insert_position(s, u@);
    let t = insert_spec(s, u, c);
    assert(t == s.insert(x, (u, c)) && 0 <= x <= s.len()) by {
        lemma_insert_position_range(s, u@);
    }
    assert(has_key(t, k) == (has_key(s, k) || k == u@)) by {
        lemma_insert_spec_keys(s, u, c, k);
    }
    if k == u@ {
        assert(t[x] == (u, c));
        lemma_index_of_key(t, x);
    } else if has_key(s, k) {
        let j = index_of_key(s, k);
        lemma_index_of_key(s, j);
        let j2 = if j < x { j } else { j + 1 };
        assert(t[j2] == s[j]);
        lemma_index_of_key(t, j2);
    }
}

/// Changing a commitment without changing its kind changes no free committer.
#[verifier::spinoff_prover]
pub proof fn lemma_free_in_same_kind(s: Seq<(UserId, UserCommitment)>, i: int, c: UserCommitment, k: Seq<u8>)
    requires
        entries_wf(s),
        0 <= i < s.len(),
        c.kind == s[i].1.kind,
    ensures
        free_in(s.update(i, (s[i].0, c)), k) == free_in(s, k),
{
    let t = s.update(i, (s[i].0, c));
    lemma_update_value_keeps_wf(s, i, c);
    assert(has_key(t, k) == has_key(s, k));
    if has_key(s, k) {
        let j = index_of_key(s, k);
        lemma_index_of_key(s, j);
        assert(t[j].0 == s[j].0);
        lemma_index_of_key(t, j);
    }
}

} // verus!
