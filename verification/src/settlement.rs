//! Append-only, hash-chained settlement log.

use vstd::prelude::*;
use vstd::string::StringSliceAdditionalSpecFns;

use crate::amount::Amount;
use crate::crypto::{hash_tagged, sha256_digest, tagged};
use crate::encode::{be_u32, be_u64, Encoder, TAG_SETTLEMENT};
use crate::error::Error;
use crate::order::{sort_by_key, sort_by_key_bytes, Keyed};
use crate::restriction::Restriction;
use crate::types;
use crate::types::{
    action_bytes, encode_action, encode_target, target_bytes, Action, ProposalId, Target, UserId,
};

verus! {

/// Yes cleared threshold and floor; otherwise No is the default winner.
#[derive(Clone, Copy, Debug, PartialEq, Eq, Structural, Hash)]
pub enum OutcomeKind {
    NoDefault,
    YesExecuted,
}

/// Wire byte of an outcome.
pub open spec fn outcome_wire(o: OutcomeKind) -> u8 {
    match o {
        OutcomeKind::NoDefault => 0,
        OutcomeKind::YesExecuted => 1,
    }
}

/// `(user, amount)` pair used for pot shares and forfeited stakes.
#[derive(Clone, Copy, Debug, PartialEq, Eq)]
pub struct Payout {
    pub user: UserId,
    pub amount: Amount,
}

impl Keyed for Payout {
    open spec fn key(&self) -> Seq<u8> {
        self.user@
    }

    fn key_bytes(&self) -> (r: [u8; 32]) {
        self.user.0
    }
}

/// Durable economic record of one settled proposal.
#[derive(Clone, Debug, PartialEq, Eq)]
pub struct SettlementEntry {
    pub prev_hash: types::Hash,
    pub proposal_id: ProposalId,
    pub target: Target,
    pub action: Action,
    pub outcome: OutcomeKind,
    /// Winning-side successful openers and their share of the pot (not stake return).
    pub payouts: Vec<Payout>,
    /// Stakes deducted from losers and forfeiters.
    pub forfeitures: Vec<Payout>,
    /// Users whose balance is set to 1 token if still zero after money flows.
    pub free_mints: Vec<UserId>,
    pub burned: Amount,
    /// Present only when Yes executed a restriction that actually became effective.
    pub executed_restriction: Option<Restriction>,
    pub this_hash: types::Hash,
}

/// Encoding of a list of `(user, amount)` pairs, without its length.
pub open spec fn payouts_bytes(s: Seq<Payout>) -> Seq<u8>
    decreases s.len(),
{
    if s.len() == 0 {
        Seq::empty()
    } else {
        payouts_bytes(s.drop_last()) + s.last().user@ + be_u64(s.last().amount@)
    }
}

/// Encoding of a list of users, without its length.
pub open spec fn users_bytes(s: Seq<UserId>) -> Seq<u8>
    decreases s.len(),
{
    if s.len() == 0 {
        Seq::empty()
    } else {
        users_bytes(s.drop_last()) + s.last()@
    }
}

/// Encoding of the optional executed restriction.
pub open spec fn restriction_bytes(r: Option<Restriction>) -> Seq<u8> {
    match r {
        None => seq![0u8],
        Some(r) => seq![1u8] + r.user@ + be_u64(r.duration@) + be_u64(r.start@),
    }
}

/// The hashed body of an entry: every field but `this_hash`, lists length-prefixed.
pub open spec fn entry_body(e: SettlementEntry) -> Seq<u8> {
    e.prev_hash@ + e.proposal_id@ + target_bytes(e.target) + action_bytes(e.action) + seq![
        outcome_wire(e.outcome),
    ] + be_u32(e.payouts@.len() as u32) + payouts_bytes(e.payouts@) + be_u32(
        e.forfeitures@.len() as u32,
    ) + payouts_bytes(e.forfeitures@) + be_u32(e.free_mints@.len() as u32) + users_bytes(
        e.free_mints@,
    ) + be_u64(e.burned@) + restriction_bytes(e.executed_restriction)
}

/// The hash an entry must carry.
pub open spec fn entry_digest(e: SettlementEntry) -> Seq<u8> {
    sha256_digest(tagged(TAG_SETTLEMENT.spec_bytes(), entry_body(e)))
}

/// The entry's stored hash matches its body.
pub open spec fn hash_matches(e: SettlementEntry) -> bool {
    e.this_hash@ == entry_digest(e)
}

/// Result of checking that `s` chains from `prev`: the first entry whose hash
/// does not match its body, or whose `prev_hash` is not the hash before it,
/// decides the error.
pub open spec fn chain_check(prev: Seq<u8>, s: Seq<SettlementEntry>) -> Result<(), Error>
    decreases s.len(),
{
    if s.len() == 0 {
        Ok(())
    } else if !hash_matches(s[0]) {
        Err(Error::SettlementHashMismatch)
    } else if s[0].prev_hash@ != prev {
        Err(Error::BrokenHashChain)
    } else {
        chain_check(s[0].this_hash@, s.drop_first())
    }
}

fn encode_payouts(e: &mut Encoder, s: &Vec<Payout>)
    ensures
        final(e)@ == old(e)@ + payouts_bytes(s@),
{
    let mut i: usize = 0;
    while i < s.len()
        invariant
            0 <= i <= s@.len(),
            e@ == old(e)@ + payouts_bytes(s@.take(i as int)),
        decreases s@.len() - i,
    {
        let p = s[i];
        e.bytes32(p.user.as_bytes());
        e.u64(p.amount.subunits());
        assert(s@.take(i + 1).drop_last() =~= s@.take(i as int));
        assert(e@ =~= old(e)@ + payouts_bytes(s@.take(i + 1)));
        i = i + 1;
    }
    assert(s@.take(s@.len() as int) =~= s@);
}

fn encode_users(e: &mut Encoder, s: &Vec<UserId>)
    ensures
        final(e)@ == old(e)@ + users_bytes(s@),
{
    let mut i: usize = 0;
    while i < s.len()
        invariant
            0 <= i <= s@.len(),
            e@ == old(e)@ + users_bytes(s@.take(i as int)),
        decreases s@.len() - i,
    {
        e.bytes32(s[i].as_bytes());
        assert(s@.take(i + 1).drop_last() =~= s@.take(i as int));
        assert(e@ =~= old(e)@ + users_bytes(s@.take(i + 1)));
        i = i + 1;
    }
    assert(s@.take(s@.len() as int) =~= s@);
}

impl SettlementEntry {
    /// Build an entry, sort lists canonically by user bytes (stable), and fill `this_hash`.
    pub fn new(
        prev_hash: types::Hash,
        proposal_id: ProposalId,
        target: Target,
        action: Action,
        outcome: OutcomeKind,
        payouts: Vec<Payout>,
        forfeitures: Vec<Payout>,
        free_mints: Vec<UserId>,
        burned: Amount,
        executed_restriction: Option<Restriction>,
    ) -> (r: Self)
        ensures
            r.prev_hash == prev_hash,
            r.proposal_id == proposal_id,
            r.target == target,
            r.action == action,
            r.outcome == outcome,
            r.payouts@ == sort_by_key(payouts@),
            r.forfeitures@ == sort_by_key(forfeitures@),
            r.free_mints@ == sort_by_key(free_mints@),
            r.burned == burned,
            r.executed_restriction == executed_restriction,
            hash_matches(r),
    {
        let payouts = sort_by_key_bytes(payouts);
        let forfeitures = sort_by_key_bytes(forfeitures);
        let free_mints = sort_by_key_bytes(free_mints);
        let mut entry = SettlementEntry {
            prev_hash,
            proposal_id,
            target,
            action,
            outcome,
            payouts,
            forfeitures,
            free_mints,
            burned,
            executed_restriction,
            this_hash: types::Hash([0u8; 32]),
        };
        let h = entry.compute_hash();
        entry.this_hash = h;
        entry
    }

    /// Hash of the entry body.
    pub fn compute_hash(&self) -> (r: types::Hash)
        ensures
            r@ == entry_digest(*self),
    {
        let mut e = Encoder::new();
        e.bytes32(self.prev_hash.as_bytes());
        e.bytes32(self.proposal_id.as_bytes());
        encode_target(&mut e, self.target);
        encode_action(&mut e, self.action);
        e.u8(
            match self.outcome {
                OutcomeKind::NoDefault => 0,
                OutcomeKind::YesExecuted => 1,
            },
        );
        e.u32(#[verifier::truncate] (self.payouts.len() as u32));
        encode_payouts(&mut e, &self.payouts);
        e.u32(#[verifier::truncate] (self.forfeitures.len() as u32));
        encode_payouts(&mut e, &self.forfeitures);
        e.u32(#[verifier::truncate] (self.free_mints.len() as u32));
        encode_users(&mut e, &self.free_mints);
        e.u64(self.burned.subunits());
        match self.executed_restriction {
            None => {
                e.u8(0);
            },
            Some(r) => {
                e.u8(1);
                e.bytes32(r.user.as_bytes());
                e.u64(r.duration.secs());
                e.u64(r.start.millis());
            },
        }
        assert(e@ =~= entry_body(*self));
        hash_tagged(TAG_SETTLEMENT.as_bytes(), e.as_slice())
    }

    /// `Ok` iff the stored hash matches the body.
    pub fn verify_hash(&self) -> (r: Result<(), Error>)
        ensures
            r == (if hash_matches(*self) {
                Ok(())
            } else {
                Err(Error::SettlementHashMismatch)
            }),
    {
        let h = self.compute_hash();
        if self.this_hash.same(&h) {
            Ok(())
        } else {
            Err(Error::SettlementHashMismatch)
        }
    }
}

/// `a` and `b` hold the same entry: equal fields and equal lists.
pub open spec fn same_entry(a: SettlementEntry, b: SettlementEntry) -> bool {
    &&& a.prev_hash == b.prev_hash
    &&& a.proposal_id == b.proposal_id
    &&& a.target == b.target
    &&& a.action == b.action
    &&& a.outcome == b.outcome
    &&& a.payouts@ == b.payouts@
    &&& a.forfeitures@ == b.forfeitures@
    &&& a.free_mints@ == b.free_mints@
    &&& a.burned == b.burned
    &&& a.executed_restriction == b.executed_restriction
    &&& a.this_hash == b.this_hash
}

fn copy_vec<T: Copy>(v: &Vec<T>) -> (r: Vec<T>)
    ensures
        r@ == v@,
{
    let mut out: Vec<T> = Vec::new();
    let mut i: usize = 0;
    while i < v.len()
        invariant
            0 <= i <= v@.len(),
            out@ == v@.take(i as int),
        decreases v@.len() - i,
    {
        out.push(v[i]);
        assert(out@ =~= v@.take(i + 1));
        i = i + 1;
    }
    assert(out@ =~= v@);
    out
}

impl SettlementEntry {
    /// A copy of this entry.
    pub fn duplicate(&self) -> (r: Self)
        ensures
            same_entry(r, *self),
    {
        SettlementEntry {
            prev_hash: self.prev_hash,
            proposal_id: self.proposal_id,
            target: self.target,
            action: self.action,
            outcome: self.outcome,
            payouts: copy_vec(&self.payouts),
            forfeitures: copy_vec(&self.forfeitures),
            free_mints: copy_vec(&self.free_mints),
            burned: self.burned,
            executed_restriction: self.executed_restriction,
            this_hash: self.this_hash,
        }
    }
}

/// Appending an entry whose hash matches its body and whose `prev_hash` is the
/// hash of the last entry (or of genesis, on an empty log) keeps a chain valid.
pub proof fn lemma_chain_push(prev: Seq<u8>, s: Seq<SettlementEntry>, e: SettlementEntry)
    requires
        chain_check(prev, s) == Ok::<(), Error>(()),
        hash_matches(e),
        e.prev_hash@ == (if s.len() == 0 {
            prev
        } else {
            s.last().this_hash@
        }),
    ensures
        chain_check(prev, s.push(e)) == Ok::<(), Error>(()),
    decreases s.len(),
{
    if s.len() > 0 {
        assert(s.push(e).drop_first() =~= s.drop_first().push(e));
        assert(s.push(e)[0] == s[0]);
        if s.len() > 1 {
            assert(s.drop_first().last() == s.last());
        }
        lemma_chain_push(s[0].this_hash@, s.drop_first(), e);
        assert(chain_check(s[0].this_hash@, s.push(e).drop_first()) == Ok::<(), Error>(()));
    } else {
        assert(s.push(e).drop_first() =~= Seq::<SettlementEntry>::empty());
        assert(chain_check(e.this_hash@, Seq::<SettlementEntry>::empty()) == Ok::<(), Error>(()));
        assert(s.push(e)[0] == e);
    }
}

/// Check that `entries` form a chain from `genesis_hash`.
pub fn verify_chain(genesis_hash: types::Hash, entries: &[SettlementEntry]) -> (r: Result<(), Error>)
    ensures
        r == chain_check(genesis_hash@, entries@),
{
    let mut prev = genesis_hash;
    let mut i: usize = 0;
    assert(entries@.skip(0) =~= entries@);
    while i < entries.len()
        invariant
            0 <= i <= entries@.len(),
            chain_check(genesis_hash@, entries@) == chain_check(prev@, entries@.skip(i as int)),
        decreases entries@.len() - i,
    {
        let entry = &entries[i];
        assert(entries@.skip(i as int)[0] == entries@[i as int]);
        assert(entries@.skip(i as int).drop_first() =~= entries@.skip(i + 1));
        entry.verify_hash()?;
        if !entry.prev_hash.same(&prev) {
            return Err(Error::BrokenHashChain);
        }
        prev = entry.this_hash;
        i = i + 1;
    }
    assert(entries@.skip(entries@.len() as int) =~= Seq::<SettlementEntry>::empty());
    Ok(())
}

} // verus!
