//! Derived balances: replay genesis plus the settlement log. Not primary state.

use vstd::prelude::*;

use crate::amount::{group_amount, Amount, TOKEN};
use crate::error::Error;
use crate::genesis::Genesis;
use crate::idmap::{entries_wf, has_key, index_of_key, lemma_index_of_key, value_at_key, IdMap};
use crate::payout::payout_sum;
use crate::escrow::{amount_for, lemma_amount_for_bounds, lemma_without, without};
use crate::order::Keyed;
use crate::settlement::{Payout, SettlementEntry};
use crate::types::UserId;

verus! {

broadcast use group_amount;

/// Abstract ledger: balance per user (absent means zero) and total supply.
pub type Ledger = (Map<Seq<u8>, u64>, u64);

/// Balance of `k` in `m`, zero when absent.
pub open spec fn get0(m: Map<Seq<u8>, u64>, k: Seq<u8>) -> u64 {
    if m.contains_key(k) {
        m[k]
    } else {
        0
    }
}

/// Deduct one forfeited stake: the balance first (a shortfall is an error),
/// then the supply.
pub open spec fn forfeit_one(st: Ledger, p: Payout) -> (Ledger, Option<Error>) {
    let b = get0(st.0, p.user@);
    if p.amount@ > b {
        (st, Some(Error::InsufficientBalance))
    } else {
        let m = st.0.insert(p.user@, (b - p.amount@) as u64);
        if p.amount@ > st.1 {
            ((m, st.1), Some(Error::InsufficientBalance))
        } else {
            ((m, (st.1 - p.amount@) as u64), None)
        }
    }
}

/// Credit one pot share: the balance first (overflow is an error), then the supply.
pub open spec fn payout_one(st: Ledger, p: Payout) -> (Ledger, Option<Error>) {
    let b = get0(st.0, p.user@);
    if b + p.amount@ > u64::MAX {
        (st, Some(Error::Overflow))
    } else {
        let m = st.0.insert(p.user@, (b + p.amount@) as u64);
        if st.1 + p.amount@ > u64::MAX {
            ((m, st.1), Some(Error::Overflow))
        } else {
            ((m, (st.1 + p.amount@) as u64), None)
        }
    }
}

/// Free mint: a user still at zero is set to one token, and the supply grows.
pub open spec fn mint_one(st: Ledger, u: UserId) -> (Ledger, Option<Error>) {
    if get0(st.0, u@) == 0 {
        let m = st.0.insert(u@, TOKEN);
        if st.1 + TOKEN > u64::MAX {
            ((m, st.1), Some(Error::Overflow))
        } else {
            ((m, (st.1 + TOKEN) as u64), None)
        }
    } else {
        (st, None)
    }
}

/// Apply the forfeitures in order, stopping at the first error.
pub open spec fn forfeit_all(st: Ledger, s: Seq<Payout>) -> (Ledger, Option<Error>)
    decreases s.len(),
{
    if s.len() == 0 {
        (st, None)
    } else {
        let prev = forfeit_all(st, s.drop_last());
        if prev.1 is Some {
            prev
        } else {
            forfeit_one(prev.0, s.last())
        }
    }
}

/// Apply the pot shares in order, stopping at the first error.
pub open spec fn payout_all(st: Ledger, s: Seq<Payout>) -> (Ledger, Option<Error>)
    decreases s.len(),
{
    if s.len() == 0 {
        (st, None)
    } else {
        let prev = payout_all(st, s.drop_last());
        if prev.1 is Some {
            prev
        } else {
            payout_one(prev.0, s.last())
        }
    }
}

/// Apply the free mints in order, stopping at the first error.
pub open spec fn mint_all(st: Ledger, s: Seq<UserId>) -> (Ledger, Option<Error>)
    decreases s.len(),
{
    if s.len() == 0 {
        (st, None)
    } else {
        let prev = mint_all(st, s.drop_last());
        if prev.1 is Some {
            prev
        } else {
            mint_one(prev.0, s.last())
        }
    }
}

/// The burn an entry implies: forfeited total minus paid-out total, with
/// `Overflow` if either total exceeds `u64::MAX` and `InsufficientBalance` if
/// more is paid than forfeited.
pub open spec fn implied_burn_spec(e: SettlementEntry) -> Result<u64, Error> {
    let lost = payout_sum(e.forfeitures@);
    let paid = payout_sum(e.payouts@);
    if lost > u64::MAX {
        Err(Error::Overflow)
    } else if paid > u64::MAX {
        Err(Error::Overflow)
    } else if paid > lost {
        Err(Error::InsufficientBalance)
    } else {
        Ok((lost - paid) as u64)
    }
}

/// Effect of one settlement on the ledger: the burn check, then forfeitures,
/// pot shares and free mints, each stage stopping at its first error.
pub open spec fn settlement_effect(st: Ledger, e: SettlementEntry) -> (Ledger, Option<Error>) {
    match implied_burn_spec(e) {
        Err(err) => (st, Some(err)),
        Ok(burn) => {
            if burn != e.burned@ {
                (st, Some(Error::SettlementHashMismatch))
            } else {
                let f = forfeit_all(st, e.forfeitures@);
                if f.1 is Some {
                    f
                } else {
                    let p = payout_all(f.0, e.payouts@);
                    if p.1 is Some {
                        p
                    } else {
                        mint_all(p.0, e.free_mints@)
                    }
                }
            }
        },
    }
}

/// Ledger at genesis: one token per founder; the supply adds a token per
/// founder, capped at `u64::MAX`.
pub open spec fn genesis_ledger(founders: Seq<UserId>) -> Ledger
    decreases founders.len(),
{
    if founders.len() == 0 {
        (Map::empty(), 0)
    } else {
        let prev = genesis_ledger(founders.drop_last());
        (prev.0.insert(founders.last()@, TOKEN), crate::amount::sat_add(prev.1, TOKEN))
    }
}

/// Replay `log` on `st`, stopping at the first entry that fails.
pub open spec fn replay_from(st: Ledger, log: Seq<SettlementEntry>) -> (Ledger, Option<Error>)
    decreases log.len(),
{
    if log.len() == 0 {
        (st, None)
    } else {
        let prev = replay_from(st, log.drop_last());
        if prev.1 is Some {
            prev
        } else {
            settlement_effect(prev.0, log.last())
        }
    }
}

/// Sum of the amounts stored in `s`.
pub open spec fn values_sum(s: Seq<(UserId, Amount)>) -> int
    decreases s.len(),
{
    if s.len() == 0 {
        0
    } else {
        values_sum(s.drop_last()) + s.last().1@
    }
}

/// `Ok` when there is no error, else that error.
pub open spec fn as_result(e: Option<Error>) -> Result<(), Error> {
    match e {
        None => Ok(()),
        Some(err) => Err(err),
    }
}

/// Incremental cache of balances as of a log prefix.
#[derive(Clone, Debug, PartialEq, Eq)]
pub struct Balances {
    map: IdMap<UserId, Amount>,
    supply: Amount,
}

impl Balances {
    /// Balance of the user with key `k`.
    pub closed spec fn balance_of(&self, k: Seq<u8>) -> u64 {
        if has_key(self.map@, k) {
            value_at_key(self.map@, k)@
        } else {
            0
        }
    }

    /// Total supply as cached.
    pub closed spec fn supply_spec(&self) -> u64 {
        self.supply@
    }

    /// Sorted map holding no zero balances.
    pub closed spec fn wf(&self) -> bool {
        self.map.wf() && forall|i: int| 0 <= i < self.map@.len() ==> (#[trigger] self.map@[i]).1@ != 0
    }

    /// The supply is the sum of all balances.
    pub closed spec fn consistent(&self) -> bool {
        self.supply@ == values_sum(self.map@)
    }

    /// The ledger these balances hold.
    pub closed spec fn ledger(&self) -> Ledger {
        (Map::new(|k: Seq<u8>| has_key(self.map@, k), |k: Seq<u8>| value_at_key(self.map@, k)@), self.supply@)
    }

    /// These balances hold exactly the ledger `st`.
    pub open spec fn models(&self, st: Ledger) -> bool {
        self.supply_spec() == st.1 && forall|k: Seq<u8>| #[trigger] self.balance_of(k) == get0(st.0, k)
    }

    /// Each balance of the ledger view is the balance the cache reports.
    pub proof fn lemma_ledger(&self)
        ensures
            self.models(self.ledger()),
    {
        assert forall|k: Seq<u8>| #[trigger] self.balance_of(k) == get0(self.ledger().0, k) by {}
    }

    /// One token per founder.
    pub fn from_genesis(genesis: &Genesis) -> (r: Self)
        ensures
            r.wf(),
            r.models(genesis_ledger(genesis.founder_list())),
            genesis.founder_list().len() * TOKEN <= u64::MAX ==> r.consistent(),
    {
        let founders = genesis.founders();
        let mut b = Balances { map: IdMap::new(), supply: Amount::zero() };
        let mut i: usize = 0;
        while i < founders.len()
            invariant
                0 <= i <= founders@.len(),
                founders@ == genesis.founder_list(),
                crate::genesis::distinct_users(founders@),
                b.wf(),
                b.models(genesis_ledger(founders@.take(i as int))),
                i * TOKEN <= u64::MAX ==> b.consistent(),
                i * TOKEN <= u64::MAX ==> b.supply_spec() == i * TOKEN,
                forall|j: int| i <= j < founders@.len() ==> b.balance_of((#[trigger] founders@[j])@) == 0,
            decreases founders@.len() - i,
        {
            let f = founders[i];
            let ghost prev = b;
            assert(founders@.take(i + 1).drop_last() =~= founders@.take(i as int));
            assert(founders@.take(i + 1).last() == f);
            b.write(f, Amount::token());
            b.supply = b.supply.saturating_add(Amount::token());
            proof {
                assert forall|j: int| i + 1 <= j < founders@.len() implies b.balance_of(
                    (#[trigger] founders@[j])@,
                ) == 0 by {
                    assert(founders@[j]@ != founders@[i as int]@);
                }
                if (i + 1) * TOKEN <= u64::MAX {
                    assert(i * TOKEN <= u64::MAX);
                }
                assert forall|k: Seq<u8>| #[trigger] b.balance_of(k) == get0(
                    genesis_ledger(founders@.take(i + 1)).0,
                    k,
                ) by {
                    if k != f@ {
                        assert(prev.balance_of(k) == get0(genesis_ledger(founders@.take(i as int)).0, k));
                    }
                }
            }
            i = i + 1;
        }
        assert(founders@.take(founders@.len() as int) =~= founders@);
        b
    }

    /// Balance of `user`; zero when absent.
    pub fn get(&self, user: &UserId) -> (r: Amount)
        requires
            self.wf(),
        ensures
            r@ == self.balance_of(user@),
    {
        match self.map.get(user) {
            Some(a) => *a,
            None => Amount::zero(),
        }
    }

    /// Total supply.
    pub fn supply(&self) -> (r: Amount)
        ensures
            r@ == self.supply_spec(),
    {
        self.supply
    }

    /// Set `user`'s balance, dropping the entry at zero.
    fn write(&mut self, user: UserId, amount: Amount)
        requires
            old(self).wf(),
        ensures
            final(self).wf(),
            final(self).supply == old(self).supply,
            final(self).balance_of(user@) == amount@,
            forall|k: Seq<u8>| k != user@ ==> final(self).balance_of(k) == old(self).balance_of(k),
            values_sum(final(self).map@) == values_sum(old(self).map@) - old(self).balance_of(user@)
                + amount@,
    {
        let ghost s = self.map@;
        if amount.is_zero() {
            self.map.remove(&user);
            proof {
                if has_key(s, user@) {
                    let i = crate::idmap::index_of_key(s, user@);
                    lemma_values_sum_remove(s, i);
                }
                assert forall|i: int| 0 <= i < self.map@.len() implies (#[trigger] self.map@[i]).1@ != 0 by {
                    let i2 = if i < crate::idmap::index_of_key(s, user@) { i } else { i + 1 };
                    if has_key(s, user@) {
                        assert(self.map@[i] == s[i2]);
                    }
                }
            }
        } else {
            self.map.insert(user, amount);
            proof {
                if has_key(s, user@) {
                    let i = crate::idmap::index_of_key(s, user@);
                    lemma_values_sum_update(s, i, (user, amount));
                    assert forall|j: int| 0 <= j < self.map@.len() implies (#[trigger] self.map@[j]).1@ != 0 by {
                        if j != i {
                            assert(self.map@[j] == s[j]);
                        }
                    }
                } else {
                    let p = choose|p: int| 0 <= p <= s.len() && self.map@ == s.insert(p, (user, amount));
                    lemma_values_sum_insert(s, p, (user, amount));
                    assert forall|j: int| 0 <= j < self.map@.len() implies (#[trigger] self.map@[j]).1@ != 0 by {
                        if j < p {
                            assert(self.map@[j] == s[j]);
                        } else if j > p {
                            assert(self.map@[j] == s[j - 1]);
                        }
                    }
                }
            }
        }
    }

    /// Apply one settlement: the burn check, then forfeitures, then pot shares,
    /// then free mints. An error stops the work where it stands.
    pub fn apply_settlement(&mut self, entry: &SettlementEntry) -> (r: Result<(), Error>)
        requires
            old(self).wf(),
        ensures
            final(self).wf(),
            final(self).models(settlement_effect(old(self).ledger(), *entry).0),
            r == as_result(settlement_effect(old(self).ledger(), *entry).1),
            old(self).consistent() && r is Ok ==> final(self).consistent(),
    {
        let ghost st0 = self.ledger();
        proof {
            self.lemma_ledger();
        }
        // Burn is implied by forfeitures not fully paid out. Check before mutating.
        let burn = implied_burn(entry);
        match burn {
            Err(e) => {
                return Err(e);
            },
            Ok(b) => {
                if b.subunits() != entry.burned.subunits() {
                    return Err(Error::SettlementHashMismatch);
                }
            },
        }
        assert(implied_burn_spec(*entry) == Ok::<u64, Error>(entry.burned@));
        assert(settlement_effect(st0, *entry).1 is None ==> forfeit_all(st0, entry.forfeitures@).1 is None);
        let mut i: usize = 0;
        while i < entry.forfeitures.len()
            invariant
                0 <= i <= entry.forfeitures@.len(),
                self.wf(),
                self.models(forfeit_all(st0, entry.forfeitures@.take(i as int)).0),
                forfeit_all(st0, entry.forfeitures@.take(i as int)).1 is None,
                st0.1 == old(self).supply@,
                old(self).consistent() ==> self.consistent(),
                implied_burn_spec(*entry) == Ok::<u64, Error>(entry.burned@),
                st0 == old(self).ledger(),
            decreases entry.forfeitures@.len() - i,
        {
            let f = entry.forfeitures[i];
            let ghost pre = forfeit_all(st0, entry.forfeitures@.take(i as int)).0;
            assert(entry.forfeitures@.take(i + 1).drop_last() =~= entry.forfeitures@.take(i as int));
            assert(entry.forfeitures@.take(i + 1).last() == f);
            assert(forfeit_all(st0, entry.forfeitures@.take(i + 1)) == forfeit_one(pre, f));
            let ghost uk = f.user@;
            let ghost before = *self;
            let cur = self.get(&f.user);
            assert(cur@ == get0(pre.0, f.user@));
            let next = match cur.checked_sub_err(f.amount) {
                Ok(v) => v,
                Err(e) => {
                    proof {
                        lemma_forfeit_error_sticks(st0, entry.forfeitures@, i + 1);
                        assert(settlement_effect(st0, *entry) == forfeit_all(st0, entry.forfeitures@));
                    }
                    return Err(e);
                },
            };
            self.write(f.user, next);
            match self.supply.checked_sub_err(f.amount) {
                Ok(s) => {
                    self.supply = s;
                },
                Err(e) => {
                    proof {
                        assert forall|k: Seq<u8>| #[trigger] self.balance_of(k) == get0(
                            forfeit_all(st0, entry.forfeitures@.take(i + 1)).0.0,
                            k,
                        ) by {
                            if k != f.user@ {
                                assert(before.balance_of(k) == get0(pre.0, k));
                            }
                        }
                        lemma_forfeit_error_sticks(st0, entry.forfeitures@, i + 1);
                        assert(settlement_effect(st0, *entry) == forfeit_all(st0, entry.forfeitures@));
                    }
                    return Err(e);
                },
            }
            proof {
                assert forall|k: Seq<u8>| #[trigger] self.balance_of(k) == get0(
                    forfeit_all(st0, entry.forfeitures@.take(i + 1)).0.0,
                    k,
                ) by {
                    if k != uk {
                        assert(before.balance_of(k) == get0(pre.0, k));
                    }
                }
            }
            i = i + 1;
        }
        assert(entry.forfeitures@.take(entry.forfeitures@.len() as int) =~= entry.forfeitures@);
        let ghost st1 = forfeit_all(st0, entry.forfeitures@).0;
        assert(forfeit_all(st0, entry.forfeitures@).1 is None);
        let mut i: usize = 0;
        while i < entry.payouts.len()
            invariant
                0 <= i <= entry.payouts@.len(),
                self.wf(),
                self.models(payout_all(st1, entry.payouts@.take(i as int)).0),
                payout_all(st1, entry.payouts@.take(i as int)).1 is None,
                old(self).consistent() ==> self.consistent(),
                st1 == forfeit_all(st0, entry.forfeitures@).0,
                forfeit_all(st0, entry.forfeitures@).1 is None,
                implied_burn_spec(*entry) == Ok::<u64, Error>(entry.burned@),
                st0 == old(self).ledger(),
            decreases entry.payouts@.len() - i,
        {
            let p = entry.payouts[i];
            let ghost pre = payout_all(st1, entry.payouts@.take(i as int)).0;
            assert(entry.payouts@.take(i + 1).drop_last() =~= entry.payouts@.take(i as int));
            assert(entry.payouts@.take(i + 1).last() == p);
            assert(payout_all(st1, entry.payouts@.take(i + 1)) == payout_one(pre, p));
            let ghost uk = p.user@;
            let ghost before = *self;
            let cur = self.get(&p.user);
            assert(cur@ == get0(pre.0, p.user@));
            let next = match cur.checked_add_err(p.amount) {
                Ok(v) => v,
                Err(e) => {
                    proof {
                        lemma_payout_error_sticks(st1, entry.payouts@, i + 1);
                        assert(settlement_effect(st0, *entry) == payout_all(st1, entry.payouts@));
                    }
                    return Err(e);
                },
            };
            self.write(p.user, next);
            match self.supply.checked_add_err(p.amount) {
                Ok(s) => {
                    self.supply = s;
                },
                Err(e) => {
                    proof {
                        assert forall|k: Seq<u8>| #[trigger] self.balance_of(k) == get0(
                            payout_all(st1, entry.payouts@.take(i + 1)).0.0,
                            k,
                        ) by {
                            if k != p.user@ {
                                assert(before.balance_of(k) == get0(pre.0, k));
                            }
                        }
                        lemma_payout_error_sticks(st1, entry.payouts@, i + 1);
                        assert(settlement_effect(st0, *entry) == payout_all(st1, entry.payouts@));
                    }
                    return Err(e);
                },
            }
            proof {
                assert forall|k: Seq<u8>| #[trigger] self.balance_of(k) == get0(
                    payout_all(st1, entry.payouts@.take(i + 1)).0.0,
                    k,
                ) by {
                    if k != uk {
                        assert(before.balance_of(k) == get0(pre.0, k));
                    }
                }
            }
            i = i + 1;
        }
        assert(entry.payouts@.take(entry.payouts@.len() as int) =~= entry.payouts@);
        let ghost st2 = payout_all(st1, entry.payouts@).0;
        assert(payout_all(st1, entry.payouts@).1 is None);
        let mut i: usize = 0;
        while i < entry.free_mints.len()
            invariant
                0 <= i <= entry.free_mints@.len(),
                self.wf(),
                self.models(mint_all(st2, entry.free_mints@.take(i as int)).0),
                mint_all(st2, entry.free_mints@.take(i as int)).1 is None,
                old(self).consistent() ==> self.consistent(),
                st1 == forfeit_all(st0, entry.forfeitures@).0,
                forfeit_all(st0, entry.forfeitures@).1 is None,
                st2 == payout_all(st1, entry.payouts@).0,
                payout_all(st1, entry.payouts@).1 is None,
                implied_burn_spec(*entry) == Ok::<u64, Error>(entry.burned@),
                st0 == old(self).ledger(),
            decreases entry.free_mints@.len() - i,
        {
            let u = entry.free_mints[i];
            let ghost pre = mint_all(st2, entry.free_mints@.take(i as int)).0;
            assert(entry.free_mints@.take(i + 1).drop_last() =~= entry.free_mints@.take(i as int));
            assert(entry.free_mints@.take(i + 1).last() == u);
            assert(mint_all(st2, entry.free_mints@.take(i + 1)) == mint_one(pre, u));
            let ghost uk = u@;
            let ghost before = *self;
            assert(self.balance_of(u@) == get0(pre.0, u@));
            if self.get(&u).is_zero() {
                self.write(u, Amount::token());
                match self.supply.checked_add_err(Amount::token()) {
                    Ok(s) => {
                        self.supply = s;
                    },
                    Err(e) => {
                        proof {
                            assert forall|k: Seq<u8>| #[trigger] self.balance_of(k) == get0(
                                mint_all(st2, entry.free_mints@.take(i + 1)).0.0,
                                k,
                            ) by {
                                if k != uk {
                                    assert(before.balance_of(k) == get0(pre.0, k));
                                }
                            }
                            lemma_mint_error_sticks(st2, entry.free_mints@, i + 1);
                            assert(settlement_effect(st0, *entry) == mint_all(st2, entry.free_mints@));
                        }
                        return Err(e);
                    },
                }
            }
            proof {
                assert forall|k: Seq<u8>| #[trigger] self.balance_of(k) == get0(
                    mint_all(st2, entry.free_mints@.take(i + 1)).0.0,
                    k,
                ) by {
                    if k != uk {
                        assert(before.balance_of(k) == get0(pre.0, k));
                    }
                }
            }
            i = i + 1;
        }
        assert(entry.free_mints@.take(entry.free_mints@.len() as int) =~= entry.free_mints@);
        Ok(())
    }
}

fn implied_burn(entry: &SettlementEntry) -> (r: Result<Amount, Error>)
    ensures
        r matches Ok(a) ==> implied_burn_spec(*entry) == Ok::<u64, Error>(a@),
        r matches Err(e) ==> implied_burn_spec(*entry) == Err::<u64, Error>(e),
{
    let mut lost = Amount::zero();
    let mut i: usize = 0;
    while i < entry.forfeitures.len()
        invariant
            0 <= i <= entry.forfeitures@.len(),
            lost@ == payout_sum(entry.forfeitures@.take(i as int)),
        decreases entry.forfeitures@.len() - i,
    {
        assert(entry.forfeitures@.take(i + 1).drop_last() =~= entry.forfeitures@.take(i as int));
        match lost.checked_add_err(entry.forfeitures[i].amount) {
            Ok(v) => {
                lost = v;
            },
            Err(e) => {
                proof {
                    lemma_payout_sum_prefix(entry.forfeitures@, i + 1);
                }
                return Err(e);
            },
        }
        i = i + 1;
    }
    assert(entry.forfeitures@.take(entry.forfeitures@.len() as int) =~= entry.forfeitures@);
    let mut paid = Amount::zero();
    let mut i: usize = 0;
    while i < entry.payouts.len()
        invariant
            0 <= i <= entry.payouts@.len(),
            paid@ == payout_sum(entry.payouts@.take(i as int)),
            lost@ == payout_sum(entry.forfeitures@),
        decreases entry.payouts@.len() - i,
    {
        assert(entry.payouts@.take(i + 1).drop_last() =~= entry.payouts@.take(i as int));
        match paid.checked_add_err(entry.payouts[i].amount) {
            Ok(v) => {
                paid = v;
            },
            Err(e) => {
                proof {
                    lemma_payout_sum_prefix(entry.payouts@, i + 1);
                }
                return Err(e);
            },
        }
        i = i + 1;
    }
    assert(entry.payouts@.take(entry.payouts@.len() as int) =~= entry.payouts@);
    lost.checked_sub_err(paid)
}

/// Replay genesis plus the full log into a fresh cache.
pub fn replay(genesis: &Genesis, log: &[SettlementEntry]) -> (r: Result<Balances, Error>)
    ensures
        r is Ok <==> replay_from(genesis_ledger(genesis.founder_list()), log@).1 is None,
        r matches Ok(b) ==> b.wf() && b.models(replay_from(genesis_ledger(genesis.founder_list()), log@).0),
        r matches Ok(b) ==> (genesis.founder_list().len() * TOKEN <= u64::MAX ==> b.consistent()),
        r matches Err(e) ==> replay_from(genesis_ledger(genesis.founder_list()), log@).1 == Some(e),
{
    let ghost st0 = genesis_ledger(genesis.founder_list());
    let mut balances = Balances::from_genesis(genesis);
    let mut i: usize = 0;
    while i < log.len()
        invariant
            0 <= i <= log@.len(),
            balances.wf(),
            balances.models(replay_from(st0, log@.take(i as int)).0),
            replay_from(st0, log@.take(i as int)).1 is None,
            genesis.founder_list().len() * TOKEN <= u64::MAX ==> balances.consistent(),
            st0 == genesis_ledger(genesis.founder_list()),
        decreases log@.len() - i,
    {
        assert(log@.take(i + 1).drop_last() =~= log@.take(i as int));
        assert(log@.take(i + 1).last() == log@[i as int]);
        let ghost before = balances;
        let ghost pre = replay_from(st0, log@.take(i as int)).0;
        proof {
            before.lemma_ledger();
            lemma_models_equiv(before, before.ledger(), pre);
            lemma_effect_congruent(before.ledger(), pre, log@[i as int]);
            assert(replay_from(st0, log@.take(i + 1)) == settlement_effect(pre, log@[i as int]));
        }
        let res = balances.apply_settlement(&log[i]);
        proof {
            lemma_equiv_models(balances, settlement_effect(before.ledger(), log@[i as int]).0,
                settlement_effect(pre, log@[i as int]).0);
        }
        match res {
            Ok(()) => {},
            Err(e) => {
                proof {
                    lemma_replay_error_sticks(st0, log@, i + 1);
                }
                return Err(e);
            },
        }
        i = i + 1;
    }
    assert(log@.take(log@.len() as int) =~= log@);
    Ok(balances)
}

/// Balance of `k` in the stored entries `m`, zero when absent.
pub open spec fn stored(m: Seq<(UserId, Amount)>, k: Seq<u8>) -> int {
    if has_key(m, k) {
        value_at_key(m, k)@ as int
    } else {
        0
    }
}

/// Dropping one stored entry keeps the entries well formed and every other
/// user's stored balance, and takes that entry's value out of the sum.
proof fn lemma_stored_remove(m: Seq<(UserId, Amount)>, j: int)
    requires
        entries_wf(m),
        0 <= j < m.len(),
    ensures
        entries_wf(m.remove(j)),
        values_sum(m.remove(j)) == values_sum(m) - m[j].1@,
        stored(m.remove(j), m[j].0.key()) == 0,
        forall|k: Seq<u8>| k != m[j].0.key() ==> #[trigger] stored(m.remove(j), k) == stored(m, k),
{
    let m1 = m.remove(j);
    lemma_values_sum_remove(m, j);
    assert(forall|i: int| 0 <= i < j ==> #[trigger] m1[i] == m[i]);
    assert(forall|i: int| j <= i < m1.len() ==> #[trigger] m1[i] == m[i + 1]);
    assert forall|a: int, b: int| 0 <= a < b < m1.len() implies crate::order::lex_lt(
        #[trigger] m1[a].0.key(),
        #[trigger] m1[b].0.key(),
    ) by {
        let a2 = if a < j { a } else { a + 1 };
        let b2 = if b < j { b } else { b + 1 };
        assert(m1[a] == m[a2] && m1[b] == m[b2]);
    }
    assert forall|a: int| 0 <= a < m1.len() implies (#[trigger] m1[a].0.key()).len() == 32 by {
        let a2 = if a < j { a } else { a + 1 };
        assert(m1[a] == m[a2]);
    }
    let u = m[j].0.key();
    if has_key(m1, u) {
        let i = index_of_key(m1, u);
        let i2 = if i < j { i } else { i + 1 };
        assert(m1[i] == m[i2]);
        lemma_index_of_key(m, i2);
        lemma_index_of_key(m, j);
    }
    assert forall|k: Seq<u8>| k != m[j].0.key() implies #[trigger] stored(m1, k) == stored(m, k) by {
        if has_key(m, k) {
            let i = index_of_key(m, k);
            lemma_index_of_key(m, i);
            let i1 = if i < j { i } else { i - 1 };
            assert(m1[i1] == m[i]);
            lemma_index_of_key(m1, i1);
        }
        if has_key(m1, k) {
            let i = index_of_key(m1, k);
            let i2 = if i < j { i } else { i + 1 };
            assert(m1[i] == m[i2]);
        }
    }
}

/// Amounts whose per-user totals fit the stored balances sum to at most the
/// sum of those balances.
proof fn lemma_totals_within_values(m: Seq<(UserId, Amount)>, s: Seq<Payout>)
    requires
        entries_wf(m),
        forall|k: Seq<u8>| #[trigger] amount_for(s, k) <= stored(m, k),
    ensures
        payout_sum(s) <= values_sum(m),
    decreases s.len(),
{
    if s.len() == 0 {
        lemma_values_sum_nonneg(m);
    } else {
        let u = s.last().user@;
        let s1 = without(s, u);
        lemma_without(s, u, u);
        lemma_amount_for_bounds(s, u);
        if has_key(m, u) {
            let j = index_of_key(m, u);
            lemma_index_of_key(m, j);
            let m1 = m.remove(j);
            lemma_stored_remove(m, j);
            assert forall|k: Seq<u8>| #[trigger] amount_for(s1, k) <= stored(m1, k) by {
                lemma_without(s, u, k);
            }
            lemma_totals_within_values(m1, s1);
        } else {
            assert forall|k: Seq<u8>| #[trigger] amount_for(s1, k) <= stored(m, k) by {
                lemma_without(s, u, k);
            }
            lemma_totals_within_values(m, s1);
        }
    }
}

proof fn lemma_values_sum_nonneg(m: Seq<(UserId, Amount)>)
    ensures
        values_sum(m) >= 0,
    decreases m.len(),
{
    if m.len() > 0 {
        lemma_values_sum_nonneg(m.drop_last());
    }
}

impl Balances {
    /// Amounts whose per-user totals fit the balances sum to at most the
    /// supply of consistent balances.
    pub proof fn lemma_totals_within_supply(&self, s: Seq<Payout>)
        requires
            self.wf(),
            self.consistent(),
            forall|k: Seq<u8>| #[trigger] amount_for(s, k) <= self.balance_of(k),
        ensures
            payout_sum(s) <= self.supply_spec(),
    {
        assert forall|k: Seq<u8>| #[trigger] amount_for(s, k) <= stored(self.map@, k) by {
            assert(self.balance_of(k) == stored(self.map@, k));
        }
        lemma_totals_within_values(self.map@, s);
    }

    /// Amounts that fit the balances and give nothing to the user with key
    /// `k` sum to at most the supply less that user's balance.
    pub proof fn lemma_totals_beside(&self, s: Seq<Payout>, k: Seq<u8>)
        requires
            self.wf(),
            self.consistent(),
            amount_for(s, k) == 0,
            forall|k2: Seq<u8>| #[trigger] amount_for(s, k2) <= self.balance_of(k2),
        ensures
            payout_sum(s) + self.balance_of(k) <= self.supply_spec(),
    {
        let m = self.map@;
        if has_key(m, k) {
            let j = index_of_key(m, k);
            lemma_index_of_key(m, j);
            lemma_stored_remove(m, j);
            assert forall|k2: Seq<u8>| #[trigger] amount_for(s, k2) <= stored(m.remove(j), k2) by {
                assert(self.balance_of(k2) == stored(m, k2));
            }
            lemma_totals_within_values(m.remove(j), s);
        } else {
            self.lemma_totals_within_supply(s);
        }
    }
}

proof fn lemma_forfeit_all_supply(st: Ledger, s: Seq<Payout>)
    ensures
        forfeit_all(st, s).1 is None ==> forfeit_all(st, s).0.1 == st.1 - payout_sum(s),
    decreases s.len(),
{
    if s.len() > 0 {
        lemma_forfeit_all_supply(st, s.drop_last());
    }
}

proof fn lemma_payout_all_supply(st: Ledger, s: Seq<Payout>)
    ensures
        payout_all(st, s).1 is None ==> payout_all(st, s).0.1 == st.1 + payout_sum(s),
    decreases s.len(),
{
    if s.len() > 0 {
        lemma_payout_all_supply(st, s.drop_last());
    }
}

proof fn lemma_mint_all_supply(st: Ledger, s: Seq<UserId>) -> (m: int)
    ensures
        mint_all(st, s).1 is None ==> 0 <= m <= s.len() && mint_all(st, s).0.1 == st.1 + TOKEN * m,
    decreases s.len(),
{
    if s.len() == 0 {
        0
    } else {
        let m0 = lemma_mint_all_supply(st, s.drop_last());
        let prev = mint_all(st, s.drop_last());
        if prev.1 is None && get0(prev.0.0, s.last()@) == 0 {
            m0 + 1
        } else {
            m0
        }
    }
}

/// Tokens come into being only by free mints and leave only by burns: a
/// settlement that applies moves the supply by its free mints (one token for
/// each listed user it actually mints for) less its burn.
pub proof fn law_supply_moves_by_mints_and_burn(st: Ledger, e: SettlementEntry)
    requires
        settlement_effect(st, e).1 is None,
    ensures
        exists|m: int|
            0 <= m <= e.free_mints@.len() && #[trigger] (TOKEN * m) == settlement_effect(st, e).0.1 - st.1
                + e.burned@,
{
    let f = forfeit_all(st, e.forfeitures@);
    let p = payout_all(f.0, e.payouts@);
    lemma_forfeit_all_supply(st, e.forfeitures@);
    lemma_payout_all_supply(f.0, e.payouts@);
    let m = lemma_mint_all_supply(p.0, e.free_mints@);
    assert(TOKEN * m == settlement_effect(st, e).0.1 - st.1 + e.burned@);
}

/// Replay is a fold over the log: replaying nothing leaves the ledger,
/// replaying one entry is that entry's effect, and replaying `a` then `c` is
/// replaying `a + c`, the first failing entry's error ending the fold.
pub proof fn law_replay_is_a_fold(st: Ledger, a: Seq<SettlementEntry>, c: Seq<SettlementEntry>, e: SettlementEntry)
    ensures
        replay_from(st, Seq::empty()) == (st, None::<Error>),
        replay_from(st, seq![e]) == settlement_effect(st, e),
        replay_from(st, a + c) == (if replay_from(st, a).1 is Some {
            replay_from(st, a)
        } else {
            replay_from(replay_from(st, a).0, c)
        }),
    decreases c.len(),
{
    assert(seq![e].drop_last() =~= Seq::<SettlementEntry>::empty());
    assert(replay_from(st, Seq::<SettlementEntry>::empty()) == (st, None::<Error>));
    if c.len() == 0 {
        assert(a + c =~= a);
    } else {
        law_replay_is_a_fold(st, a, c.drop_last(), e);
        assert((a + c).drop_last() =~= a + c.drop_last());
        assert((a + c).last() == c.last());
    }
}

/// Genesis grants exactly one token to each founder and nothing to anyone
/// else; the supply is one token per founder while that fits in a `u64`.
pub proof fn law_genesis_grants_one_token(founders: Seq<UserId>, k: Seq<u8>)
    ensures
        get0(genesis_ledger(founders).0, k) == (if exists|i: int| 0 <= i < founders.len() && (#[trigger] founders[i])@ == k {
            TOKEN
        } else {
            0
        }),
        founders.len() * TOKEN <= u64::MAX ==> genesis_ledger(founders).1 == founders.len() * TOKEN,
    decreases founders.len(),
{
    if founders.len() > 0 {
        let init = founders.drop_last();
        law_genesis_grants_one_token(init, k);
        assert(forall|i: int| 0 <= i < init.len() ==> #[trigger] init[i] == founders[i]);
        if exists|i: int| 0 <= i < founders.len() && (#[trigger] founders[i])@ == k {
            let i = choose|i: int| 0 <= i < founders.len() && (#[trigger] founders[i])@ == k;
            if i < init.len() {
                assert(init[i] == founders[i]);
            }
        }
        if exists|i: int| 0 <= i < init.len() && (#[trigger] init[i])@ == k {
            let i = choose|i: int| 0 <= i < init.len() && (#[trigger] init[i])@ == k;
            assert(founders[i] == init[i]);
        }
        if founders.len() * TOKEN <= u64::MAX {
            assert(init.len() * TOKEN <= founders.len() * TOKEN) by (nonlinear_arith)
                requires
                    init.len() + 1 == founders.len(),
            ;
            assert(founders.len() * TOKEN == init.len() * TOKEN + TOKEN) by (nonlinear_arith)
                requires
                    init.len() + 1 == founders.len(),
            ;
        }
    }
}

/// A free mint sets a balance to one token; it never adds to one. Whatever the
/// pass returns, each balance either stays or goes from zero to one token; when
/// it succeeds, exactly the listed users that were at zero hold one token, and
/// listing a user twice mints once.
pub proof fn law_mint_sets_not_adds(st: Ledger, users: Seq<UserId>, k: Seq<u8>)
    ensures
        get0(mint_all(st, users).0.0, k) == get0(st.0, k) || (get0(st.0, k) == 0 && get0(
            mint_all(st, users).0.0,
            k,
        ) == TOKEN),
        mint_all(st, users).1 is None ==> get0(mint_all(st, users).0.0, k) == (if get0(st.0, k) == 0
            && exists|i: int| 0 <= i < users.len() && (#[trigger] users[i])@ == k {
            TOKEN
        } else {
            get0(st.0, k)
        }),
    decreases users.len(),
{
    if users.len() > 0 {
        let init = users.drop_last();
        law_mint_sets_not_adds(st, init, k);
        assert(forall|i: int| 0 <= i < init.len() ==> #[trigger] init[i] == users[i]);
        if exists|i: int| 0 <= i < users.len() && (#[trigger] users[i])@ == k {
            let i = choose|i: int| 0 <= i < users.len() && (#[trigger] users[i])@ == k;
            if i < init.len() {
                assert(init[i] == users[i]);
            }
        }
        if exists|i: int| 0 <= i < init.len() && (#[trigger] init[i])@ == k {
            let i = choose|i: int| 0 <= i < init.len() && (#[trigger] init[i])@ == k;
            assert(users[i] == init[i]);
        }
    }
}

/// Two ledgers agree: same supply, same balance for every key.
pub open spec fn equiv(a: Ledger, b: Ledger) -> bool {
    a.1 == b.1 && forall|k: Seq<u8>| #[trigger] get0(a.0, k) == get0(b.0, k)
}

/// Balances that hold two ledgers show those ledgers agree.
pub proof fn lemma_models_equiv(b: Balances, x: Ledger, y: Ledger)
    requires
        b.models(x),
        b.models(y),
    ensures
        equiv(x, y),
{
    assert forall|k: Seq<u8>| #[trigger] get0(x.0, k) == get0(y.0, k) by {
        assert(b.balance_of(k) == get0(x.0, k));
    }
}

/// Balances that hold a ledger hold every ledger that agrees with it.
pub proof fn lemma_equiv_models(b: Balances, x: Ledger, y: Ledger)
    requires
        b.models(x),
        equiv(x, y),
    ensures
        b.models(y),
{
    assert forall|k: Seq<u8>| #[trigger] b.balance_of(k) == get0(y.0, k) by {
        assert(get0(x.0, k) == get0(y.0, k));
    }
}

proof fn lemma_insert_equiv(a: Ledger, b: Ledger, k: Seq<u8>, v: u64)
    requires
        equiv(a, b),
    ensures
        forall|j: Seq<u8>| #[trigger] get0(a.0.insert(k, v), j) == get0(b.0.insert(k, v), j),
{
    assert forall|j: Seq<u8>| #[trigger] get0(a.0.insert(k, v), j) == get0(b.0.insert(k, v), j) by {
        if j != k {
            assert(get0(a.0, j) == get0(b.0, j));
        }
    }
}

proof fn lemma_forfeit_congruent(a: Ledger, b: Ledger, s: Seq<Payout>)
    requires
        equiv(a, b),
    ensures
        equiv(forfeit_all(a, s).0, forfeit_all(b, s).0),
        forfeit_all(a, s).1 == forfeit_all(b, s).1,
    decreases s.len(),
{
    if s.len() > 0 {
        lemma_forfeit_congruent(a, b, s.drop_last());
        let x = forfeit_all(a, s.drop_last()).0;
        let y = forfeit_all(b, s.drop_last()).0;
        let p = s.last();
        assert(get0(x.0, p.user@) == get0(y.0, p.user@));
        let bal = get0(x.0, p.user@);
        if p.amount@ <= bal {
            lemma_insert_equiv(x, y, p.user@, (bal - p.amount@) as u64);
        }
    }
}

proof fn lemma_payout_congruent(a: Ledger, b: Ledger, s: Seq<Payout>)
    requires
        equiv(a, b),
    ensures
        equiv(payout_all(a, s).0, payout_all(b, s).0),
        payout_all(a, s).1 == payout_all(b, s).1,
    decreases s.len(),
{
    if s.len() > 0 {
        lemma_payout_congruent(a, b, s.drop_last());
        let x = payout_all(a, s.drop_last()).0;
        let y = payout_all(b, s.drop_last()).0;
        let p = s.last();
        assert(get0(x.0, p.user@) == get0(y.0, p.user@));
        let bal = get0(x.0, p.user@);
        if bal + p.amount@ <= u64::MAX {
            lemma_insert_equiv(x, y, p.user@, (bal + p.amount@) as u64);
        }
    }
}

proof fn lemma_mint_congruent(a: Ledger, b: Ledger, s: Seq<UserId>)
    requires
        equiv(a, b),
    ensures
        equiv(mint_all(a, s).0, mint_all(b, s).0),
        mint_all(a, s).1 == mint_all(b, s).1,
    decreases s.len(),
{
    if s.len() > 0 {
        lemma_mint_congruent(a, b, s.drop_last());
        let x = mint_all(a, s.drop_last()).0;
        let y = mint_all(b, s.drop_last()).0;
        let u = s.last();
        assert(get0(x.0, u@) == get0(y.0, u@));
        lemma_insert_equiv(x, y, u@, TOKEN);
    }
}

/// Settlement effects depend only on the balances and the supply.
pub proof fn lemma_effect_congruent(a: Ledger, b: Ledger, e: SettlementEntry)
    requires
        equiv(a, b),
    ensures
        equiv(settlement_effect(a, e).0, settlement_effect(b, e).0),
        settlement_effect(a, e).1 == settlement_effect(b, e).1,
{
    lemma_forfeit_congruent(a, b, e.forfeitures@);
    lemma_payout_congruent(forfeit_all(a, e.forfeitures@).0, forfeit_all(b, e.forfeitures@).0, e.payouts@);
    lemma_mint_congruent(
        payout_all(forfeit_all(a, e.forfeitures@).0, e.payouts@).0,
        payout_all(forfeit_all(b, e.forfeitures@).0, e.payouts@).0,
        e.free_mints@,
    );
}

proof fn lemma_payout_sum_prefix(s: Seq<Payout>, n: int)
    requires
        0 <= n <= s.len(),
    ensures
        payout_sum(s.take(n)) <= payout_sum(s),
    decreases s.len(),
{
    if n < s.len() {
        assert(s.drop_last().take(n) =~= s.take(n));
        lemma_payout_sum_prefix(s.drop_last(), n);
    } else {
        assert(s.take(n) =~= s);
    }
}

proof fn lemma_forfeit_error_sticks(st: Ledger, s: Seq<Payout>, n: int)
    requires
        0 <= n <= s.len(),
        forfeit_all(st, s.take(n)).1 is Some,
    ensures
        forfeit_all(st, s) == forfeit_all(st, s.take(n)),
    decreases s.len(),
{
    if n < s.len() {
        assert(s.drop_last().take(n) =~= s.take(n));
        lemma_forfeit_error_sticks(st, s.drop_last(), n);
    } else {
        assert(s.take(n) =~= s);
    }
}

proof fn lemma_payout_error_sticks(st: Ledger, s: Seq<Payout>, n: int)
    requires
        0 <= n <= s.len(),
        payout_all(st, s.take(n)).1 is Some,
    ensures
        payout_all(st, s) == payout_all(st, s.take(n)),
    decreases s.len(),
{
    if n < s.len() {
        assert(s.drop_last().take(n) =~= s.take(n));
        lemma_payout_error_sticks(st, s.drop_last(), n);
    } else {
        assert(s.take(n) =~= s);
    }
}

proof fn lemma_mint_error_sticks(st: Ledger, s: Seq<UserId>, n: int)
    requires
        0 <= n <= s.len(),
        mint_all(st, s.take(n)).1 is Some,
    ensures
        mint_all(st, s) == mint_all(st, s.take(n)),
    decreases s.len(),
{
    if n < s.len() {
        assert(s.drop_last().take(n) =~= s.take(n));
        lemma_mint_error_sticks(st, s.drop_last(), n);
    } else {
        assert(s.take(n) =~= s);
    }
}

proof fn lemma_replay_error_sticks(st: Ledger, s: Seq<SettlementEntry>, n: int)
    requires
        0 <= n <= s.len(),
        replay_from(st, s.take(n)).1 is Some,
    ensures
        replay_from(st, s) == replay_from(st, s.take(n)),
    decreases s.len(),
{
    if n < s.len() {
        assert(s.drop_last().take(n) =~= s.take(n));
        lemma_replay_error_sticks(st, s.drop_last(), n);
    } else {
        assert(s.take(n) =~= s);
    }
}

proof fn lemma_values_sum_update(s: Seq<(UserId, Amount)>, i: int, x: (UserId, Amount))
    requires
        0 <= i < s.len(),
    ensures
        values_sum(s.update(i, x)) == values_sum(s) - s[i].1@ + x.1@,
    decreases s.len(),
{
    if i < s.len() - 1 {
        assert(s.update(i, x).drop_last() =~= s.drop_last().update(i, x));
        lemma_values_sum_update(s.drop_last(), i, x);
    } else {
        assert(s.update(i, x).drop_last() =~= s.drop_last());
    }
}

proof fn lemma_values_sum_insert(s: Seq<(UserId, Amount)>, p: int, x: (UserId, Amount))
    requires
        0 <= p <= s.len(),
    ensures
        values_sum(s.insert(p, x)) == values_sum(s) + x.1@,
    decreases s.len(),
{
    if p < s.len() {
        assert(s.insert(p, x).drop_last() =~= s.drop_last().insert(p, x));
        lemma_values_sum_insert(s.drop_last(), p, x);
    } else {
        assert(s.insert(p, x).drop_last() =~= s);
    }
}

proof fn lemma_values_sum_remove(s: Seq<(UserId, Amount)>, i: int)
    requires
        0 <= i < s.len(),
    ensures
        values_sum(s.remove(i)) == values_sum(s) - s[i].1@,
    decreases s.len(),
{
    if i < s.len() - 1 {
        assert(s.remove(i).drop_last() =~= s.drop_last().remove(i));
        lemma_values_sum_remove(s.drop_last(), i);
    } else {
        assert(s.remove(i) =~= s.drop_last());
    }
}

} // verus!
