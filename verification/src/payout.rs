//! Pro-rata pot split on full opened winning stake. Remainder burned.

use vstd::prelude::*;

use crate::amount::{amt, group_amount, Amount};
use crate::error::Error;
use crate::settlement::Payout;
use crate::types::UserId;

verus! {

broadcast use group_amount;

/// Result of splitting `pot` among winning opened stakes.
#[derive(Clone, Debug, PartialEq, Eq)]
pub struct PayoutPlan {
    pub payouts: Vec<Payout>,
    pub burned: Amount,
}

/// Sum of the stakes in `w`.
pub open spec fn stake_total(w: Seq<(UserId, Amount)>) -> int
    decreases w.len(),
{
    if w.len() == 0 {
        0
    } else {
        stake_total(w.drop_last()) + w.last().1@
    }
}

/// Sum of the amounts in `s`.
pub open spec fn payout_sum(s: Seq<Payout>) -> int
    decreases s.len(),
{
    if s.len() == 0 {
        0
    } else {
        payout_sum(s.drop_last()) + s.last().amount@
    }
}

/// Each winner's share `floor(pot * stake / total)`, in winner order, leaving out
/// zero shares.
pub open spec fn pot_shares(pot: u64, total: int, w: Seq<(UserId, Amount)>) -> Seq<Payout>
    decreases w.len(),
{
    if w.len() == 0 {
        Seq::empty()
    } else {
        let prev = pot_shares(pot, total, w.drop_last());
        let share = pot * w.last().1@ / total;
        if share > 0 {
            prev.push(Payout { user: w.last().0, amount: amt(share as u64) })
        } else {
            prev
        }
    }
}

/// The payouts of a split: nothing when no stake won or the pot is empty,
/// else the pro-rata shares.
pub open spec fn split_payouts(pot: u64, w: Seq<(UserId, Amount)>) -> Seq<Payout> {
    if stake_total(w) == 0 || pot == 0 {
        Seq::empty()
    } else {
        pot_shares(pot, stake_total(w), w)
    }
}

proof fn lemma_stake_total_nonneg(w: Seq<(UserId, Amount)>)
    ensures
        0 <= stake_total(w) <= w.len() * u64::MAX,
    decreases w.len(),
{
    if w.len() > 0 {
        lemma_stake_total_nonneg(w.drop_last());
    }
}

/// `floor(pot * stake_i / total_winning_stake)`. No winning stake or zero pot:
/// the whole pot is burned.
///
/// Free committers are not passed in; they never share the pot.
pub fn split_pot(pot: Amount, winners: &[(UserId, Amount)]) -> (r: Result<PayoutPlan, Error>)
    ensures
        r is Ok,
        r matches Ok(plan) ==> {
            &&& plan.payouts@ == split_payouts(pot@, winners@)
            &&& plan.burned@ == pot@ - payout_sum(plan.payouts@)
        },
{
    let mut total: u128 = 0;
    let mut i: usize = 0;
    while i < winners.len()
        invariant
            0 <= i <= winners.len(),
            total == stake_total(winners@.take(i as int)),
            total <= i * u64::MAX,
        decreases winners.len() - i,
    {
        assert(winners@.take(i + 1).drop_last() =~= winners@.take(i as int));
        assert(total + winners@[i as int].1@ <= (i + 1) * u64::MAX) by (nonlinear_arith)
            requires
                total <= i * u64::MAX,
                winners@[i as int].1@ <= u64::MAX,
        ;
        assert((i + 1) * u64::MAX <= u128::MAX) by (nonlinear_arith)
            requires
                i < usize::MAX,
        ;
        total = total + winners[i].1.subunits() as u128;
        i = i + 1;
    }
    assert(winners@.take(winners.len() as int) =~= winners@);
    if total == 0 || pot.is_zero() {
        return Ok(PayoutPlan { payouts: Vec::new(), burned: pot });
    }
    let pot_n = pot.subunits() as u128;
    let mut payouts: Vec<Payout> = Vec::new();
    let mut distributed: u128 = 0;
    let mut i: usize = 0;
    while i < winners.len()
        invariant
            0 <= i <= winners.len(),
            total == stake_total(winners@),
            total > 0,
            pot_n == pot@,
            payouts@ == pot_shares(pot@, total as int, winners@.take(i as int)),
            distributed == payout_sum(payouts@),
            distributed * total <= pot_n * stake_total(winners@.take(i as int)),
            stake_total(winners@.take(i as int)) <= total,
        decreases winners.len() - i,
    {
        let (user, stake) = winners[i];
        proof {
            assert(winners@.take(i + 1).drop_last() =~= winners@.take(i as int));
            assert(winners@.take(i + 1).last() == winners@[i as int]);
            lemma_stake_total_nonneg(winners@.take(i as int));
            lemma_prefix_total_bounded(winners@, i as int);
        }
        assert(pot_n * stake@ <= u128::MAX) by (nonlinear_arith)
            requires
                pot_n <= u64::MAX,
                stake@ <= u64::MAX,
        ;
        let product: u128 = pot_n * stake.subunits() as u128;
        let share: u128 = product / total;
        proof {
            lemma_share_bounds(pot_n as int, stake@ as int, total as int, distributed as int,
                stake_total(winners@.take(i as int)));
        }
        let ghost before = payouts@;
        if share > 0 {
            payouts.push(Payout { user, amount: Amount::from_subunits(share as u64) });
            distributed = distributed + share;
            assert(payouts@.drop_last() =~= before);
        }
        i = i + 1;
    }
    assert(winners@.take(winners.len() as int) =~= winners@);
    proof {
        assert(distributed <= pot_n) by (nonlinear_arith)
            requires
                distributed * total <= pot_n * total,
                total > 0,
        ;
    }
    Ok(PayoutPlan { payouts, burned: Amount::from_subunits((pot_n - distributed) as u64) })
}

proof fn lemma_prefix_total_bounded(w: Seq<(UserId, Amount)>, i: int)
    requires
        0 <= i < w.len(),
    ensures
        stake_total(w.take(i)) + w[i].1@ <= stake_total(w),
    decreases w.len(),
{
    if i < w.len() - 1 {
        lemma_prefix_total_bounded(w.drop_last(), i);
        assert(w.drop_last().take(i) =~= w.take(i));
    } else {
        assert(w.take(i) =~= w.drop_last());
    }
}

proof fn lemma_share_bounds(pot: int, stake: int, total: int, distributed: int, prefix: int)
    requires
        0 <= pot,
        0 <= stake,
        0 < total,
        0 <= distributed,
        0 <= prefix,
        prefix + stake <= total,
        distributed * total <= pot * prefix,
    ensures
        (pot * stake / total) * total <= pot * stake,
        (distributed + pot * stake / total) * total <= pot * (prefix + stake),
        pot * stake / total <= pot,
        distributed <= pot,
{
    let q = pot * stake / total;
    assert(q * total <= pot * stake) by (nonlinear_arith)
        requires
            total > 0,
            pot * stake >= 0,
            q == pot * stake / total,
    ;
    assert((distributed + q) * total <= pot * (prefix + stake)) by (nonlinear_arith)
        requires
            q * total <= pot * stake,
            distributed * total <= pot * prefix,
    ;
    assert(q <= pot) by (nonlinear_arith)
        requires
            q * total <= pot * stake,
            stake <= total,
            total > 0,
            pot >= 0,
            q >= 0,
    ;
    assert(distributed <= pot) by (nonlinear_arith)
        requires
            distributed * total <= pot * prefix,
            prefix <= total,
            total > 0,
            pot >= 0,
    ;
}

/// The payouts and the burned remainder together are exactly the pot, and no
/// single share exceeds the pot.
pub proof fn law_split_conserves_pot(pot: u64, w: Seq<(UserId, Amount)>)
    ensures
        payout_sum(split_payouts(pot, w)) <= pot,
{
    lemma_stake_total_nonneg(w);
    if stake_total(w) != 0 && pot != 0 {
        lemma_pot_shares_sum(pot, stake_total(w), w);
        assert(payout_sum(split_payouts(pot, w)) <= pot) by (nonlinear_arith)
            requires
                payout_sum(split_payouts(pot, w)) * stake_total(w) <= pot * stake_total(w),
                stake_total(w) > 0,
        ;
    }
}

proof fn lemma_pot_shares_sum(pot: u64, total: int, w: Seq<(UserId, Amount)>)
    requires
        total > 0,
        stake_total(w) <= total,
    ensures
        payout_sum(pot_shares(pot, total, w)) * total <= pot * stake_total(w),
    decreases w.len(),
{
    if w.len() > 0 {
        lemma_stake_total_nonneg(w.drop_last());
        lemma_stake_total_nonneg(w);
        lemma_pot_shares_sum(pot, total, w.drop_last());
        let prev = pot_shares(pot, total, w.drop_last());
        let s = w.last().1@ as int;
        let q = pot * s / total;
        assert(q * total <= pot * s) by (nonlinear_arith)
            requires
                total > 0,
                pot * s >= 0,
                q == pot * s / total,
        ;
        assert(q <= pot) by (nonlinear_arith)
            requires
                q * total <= pot * s,
                s <= total,
                total > 0,
                pot >= 0,
                q >= 0,
        ;
        if q > 0 {
            let next = prev.push(Payout { user: w.last().0, amount: amt(q as u64) });
            assert(next.drop_last() =~= prev);
            assert(payout_sum(next) == payout_sum(prev) + q);
        }
        assert((payout_sum(prev) + q) * total <= pot * (stake_total(w.drop_last()) + s)) by (nonlinear_arith)
            requires
                q * total <= pot * s,
                payout_sum(prev) * total <= pot * stake_total(w.drop_last()),
        ;
        assert(pot * (stake_total(w.drop_last()) + s) == pot * stake_total(w)) ;
    }
}

/// Every share goes to one of the winners.
pub proof fn lemma_shares_go_to_winners(pot: u64, w: Seq<(UserId, Amount)>, i: int)
    requires
        0 <= i < split_payouts(pot, w).len(),
    ensures
        exists|j: int| 0 <= j < w.len() && #[trigger] w[j].0 == split_payouts(pot, w)[i].user,
{
    lemma_pot_shares_users(pot, stake_total(w), w, i);
}

proof fn lemma_pot_shares_users(pot: u64, total: int, w: Seq<(UserId, Amount)>, i: int)
    requires
        0 <= i < pot_shares(pot, total, w).len(),
    ensures
        exists|j: int| 0 <= j < w.len() && #[trigger] w[j].0 == pot_shares(pot, total, w)[i].user,
    decreases w.len(),
{
    let init = w.drop_last();
    let prev = pot_shares(pot, total, init);
    if i < prev.len() {
        lemma_pot_shares_users(pot, total, init, i);
        let j = choose|j: int| 0 <= j < init.len() && #[trigger] init[j].0 == prev[i].user;
        assert(w[j] == init[j]);
        if pot * w.last().1@ / total > 0 {
            assert(pot_shares(pot, total, w)[i] == prev[i]);
        }
    } else {
        assert(w[w.len() - 1] == w.last());
    }
}

} // verus!
