//! Ephemeral proposal state. Deleted on settlement.

use vstd::prelude::*;
use vstd::string::StringSliceAdditionalSpecFns;

use crate::amount::{group_amount, sat_add, Amount};
use crate::commitment::{
    commit_digest, reveal_digest, verify_commit, verify_reveal, FreeCommitment, Opening,
    PaidCommitment, RevealCommit,
};
use crate::crypto::{hash_tagged, sha256_digest, tagged};
use crate::encode::{Encoder, TAG_PROPOSAL};
use crate::error::Error;
use crate::idmap::{has_key, index_of_key, lemma_index_of_key, value_at_key, IdMap};
use crate::order::Keyed;
use crate::params::RoomParams;
use crate::types;
use crate::types::{
    action_bytes, encode_action, encode_target, group_time, target_bytes, Action, Direction, Phase,
    ProposalId, Target, Timestamp, UserId,
};

verus! {

broadcast use group_amount, group_time;

/// Kind of first-round commitment.
#[derive(Clone, Copy, Debug, PartialEq, Eq, Structural)]
pub enum CommitmentKind {
    Paid { amount: Amount },
    Free,
}

/// Per-user commitment progress on one proposal.
#[derive(Clone, Copy, Debug, PartialEq, Eq)]
pub struct UserCommitment {
    pub hash: types::Hash,
    pub kind: CommitmentKind,
    pub reveal_hash: Option<types::Hash>,
    pub opened: Option<Direction>,
}

/// Amount a commitment locks: its stake if paid, zero if free.
pub open spec fn locked_spec(c: UserCommitment) -> u64 {
    match c.kind {
        CommitmentKind::Paid { amount } => amount@,
        CommitmentKind::Free => 0,
    }
}

impl UserCommitment {
    /// Stake this commitment locks: its amount if paid, zero if free.
    pub fn locked(&self) -> (r: Amount)
        ensures
            r@ == locked_spec(*self),
    {
        match self.kind {
            CommitmentKind::Paid { amount } => amount,
            CommitmentKind::Free => Amount::zero(),
        }
    }

    /// Whether this is a free (zero-balance) commitment.
    pub fn is_free(&self) -> (r: bool)
        ensures
            r == (self.kind is Free),
    {
        match self.kind {
            CommitmentKind::Free => true,
            CommitmentKind::Paid { .. } => false,
        }
    }
}

/// A fresh, unrevealed commitment with hash `hash`.
pub open spec fn fresh_commitment(hash: types::Hash, kind: CommitmentKind) -> UserCommitment {
    UserCommitment { hash, kind, reveal_hash: None, opened: None }
}

/// In-flight proposal. Not part of persistent state.
#[derive(Clone, Debug, PartialEq, Eq)]
pub struct Proposal {
    pub id: ProposalId,
    pub proposer: UserId,
    pub target: Target,
    pub action: Action,
    pub opened_at: Timestamp,
    pub betting_deadline: Timestamp,
    pub reveal_deadline: Timestamp,
    pub opening_deadline: Timestamp,
    pub phase: Phase,
    pub commitments: IdMap<UserId, UserCommitment>,
}

/// Phase at `now` given the three deadlines.
pub open spec fn phase_at_spec(now: u64, betting: u64, reveal: u64, opening: u64) -> Phase {
    if now < betting {
        Phase::Betting
    } else if now < reveal {
        Phase::CommitToReveal
    } else if now < opening {
        Phase::Opening
    } else {
        Phase::AwaitingSettlement
    }
}

/// Position of a phase in the lifecycle.
pub open spec fn phase_rank(p: Phase) -> int {
    match p {
        Phase::Betting => 0,
        Phase::CommitToReveal => 1,
        Phase::Opening => 2,
        Phase::AwaitingSettlement => 3,
    }
}

/// Phases only move forward as time passes: with ordered deadlines, a later
/// time never maps to an earlier phase.
pub proof fn law_phase_monotone(t1: u64, t2: u64, betting: u64, reveal: u64, opening: u64)
    requires
        t1 <= t2,
        betting <= reveal <= opening,
    ensures
        phase_rank(phase_at_spec(t1, betting, reveal, opening)) <= phase_rank(
            phase_at_spec(t2, betting, reveal, opening),
        ),
{
}

/// A commitment locks its whole stake when paid and nothing when free; a
/// proposal's total lock starts at zero and each further commitment adds its
/// lock (capped at `u64::MAX`), so it is the sum of all the locks.
pub proof fn law_total_locked_is_the_sum(s: Seq<(UserId, UserCommitment)>, x: (UserId, UserCommitment), c: UserCommitment, a: Amount)
    ensures
        total_locked_spec(Seq::empty()) == 0,
        total_locked_spec(s.push(x)) == crate::amount::sat_add(total_locked_spec(s), locked_spec(x.1)),
        total_locked_spec(s) + locked_spec(x.1) <= u64::MAX ==> total_locked_spec(s.push(x)) == total_locked_spec(
            s,
        ) + locked_spec(x.1),
        total_locked_spec(s.push(x)) >= total_locked_spec(s),
        total_locked_spec(s.push(x)) >= locked_spec(x.1),
        c.kind == (CommitmentKind::Paid { amount: a }) ==> locked_spec(c) == a@,
        c.kind is Free ==> locked_spec(c) == 0,
{
    assert(s.push(x).drop_last() =~= s);
}

/// An opening is accepted only in the opening window, for a user with a
/// commitment not yet opened, whose first-round hash is that of the opening
/// at the committed stake and whose second round binds the opening to that
/// hash; it then opens to the opening's direction.
pub proof fn law_opening_must_match(p: Proposal, k: Seq<u8>, o: Opening)
    requires
        p.open_check(k, o) is Ok,
    ensures
        p.phase == Phase::Opening,
        has_key(p.commitments@, k),
        value_at_key(p.commitments@, k).opened is None,
        value_at_key(p.commitments@, k).hash@ == commit_digest(o, locked_spec(value_at_key(p.commitments@, k))),
        value_at_key(p.commitments@, k).reveal_hash is Some,
        value_at_key(p.commitments@, k).reveal_hash->Some_0@ == reveal_digest(
            o,
            value_at_key(p.commitments@, k).hash@,
        ),
        p.open_check(k, o) == Ok::<Direction, Error>(o.direction),
{
}

/// An honest opening opens: during the opening window, a commitment whose
/// first-round hash is that of opening `o` at its stake, and whose second
/// round binds `o` to that hash, opens to `o`'s direction.
pub proof fn law_honest_opening_opens(p: Proposal, k: Seq<u8>, o: Opening)
    requires
        p.phase == Phase::Opening,
        has_key(p.commitments@, k),
        value_at_key(p.commitments@, k).opened is None,
        value_at_key(p.commitments@, k).hash@ == commit_digest(o, locked_spec(value_at_key(p.commitments@, k))),
        value_at_key(p.commitments@, k).reveal_hash matches Some(h) && h@ == reveal_digest(
            o,
            value_at_key(p.commitments@, k).hash@,
        ),
    ensures
        p.open_check(k, o) == Ok::<Direction, Error>(o.direction),
{
}

/// Bytes hashed for a proposal id.
pub open spec fn proposal_id_body(proposer: UserId, target: Target, action: Action, first: Seq<u8>) -> Seq<u8> {
    proposer@ + target_bytes(target) + action_bytes(action) + first
}

/// Proposal id digest.
pub open spec fn proposal_id_digest(proposer: UserId, target: Target, action: Action, first: Seq<u8>) -> Seq<u8> {
    sha256_digest(tagged(TAG_PROPOSAL.spec_bytes(), proposal_id_body(proposer, target, action, first)))
}

/// Stake locked on `s` by the user with key `k`.
pub open spec fn locked_in(s: Seq<(UserId, UserCommitment)>, k: Seq<u8>) -> u64 {
    if has_key(s, k) {
        locked_spec(value_at_key(s, k))
    } else {
        0
    }
}

/// Sum of the locks in `s`, capped at `u64::MAX` at every step.
pub open spec fn total_locked_spec(s: Seq<(UserId, UserCommitment)>) -> u64
    decreases s.len(),
{
    if s.len() == 0 {
        0
    } else {
        sat_add(total_locked_spec(s.drop_last()), locked_spec(s.last().1))
    }
}

/// `Ok` when the proposal is in `expected`, else the phase mismatch.
pub open spec fn phase_check(actual: Phase, expected: Phase) -> Result<(), Error> {
    if actual == expected {
        Ok(())
    } else {
        Err(Error::WrongPhase { expected, actual })
    }
}

impl Proposal {
    /// The commitment map is well formed.
    pub open spec fn wf(&self) -> bool {
        self.commitments.wf()
    }

    /// Outcome of a first-round commitment by the user with key `k`.
    pub open spec fn commit_check(&self, k: Seq<u8>) -> Result<(), Error> {
        if self.phase != Phase::Betting {
            Err(Error::WrongPhase { expected: Phase::Betting, actual: self.phase })
        } else if has_key(self.commitments@, k) {
            Err(Error::AlreadyCommitted)
        } else {
            Ok(())
        }
    }

    /// Outcome of a commit-to-reveal by the user with key `k`.
    pub open spec fn reveal_commit_check(&self, k: Seq<u8>) -> Result<(), Error> {
        if self.phase != Phase::CommitToReveal {
            Err(Error::WrongPhase { expected: Phase::CommitToReveal, actual: self.phase })
        } else if !has_key(self.commitments@, k) {
            Err(Error::NoCommitment)
        } else if value_at_key(self.commitments@, k).reveal_hash is Some {
            Err(Error::AlreadyRevealCommitted)
        } else {
            Ok(())
        }
    }

    /// Outcome of an opening by the user with key `k`.
    pub open spec fn open_check(&self, k: Seq<u8>, o: Opening) -> Result<Direction, Error> {
        let c = value_at_key(self.commitments@, k);
        if self.phase != Phase::Opening {
            Err(Error::WrongPhase { expected: Phase::Opening, actual: self.phase })
        } else if !has_key(self.commitments@, k) {
            Err(Error::NoCommitment)
        } else if c.opened is Some {
            Err(Error::AlreadyOpened)
        } else if c.reveal_hash is None {
            Err(Error::NoRevealCommit)
        } else if c.hash@ != commit_digest(o, locked_spec(c)) || c.reveal_hash->Some_0@
            != reveal_digest(o, c.hash@) {
            Err(Error::OpeningVerifyFailed)
        } else {
            Ok(o.direction)
        }
    }

    /// Everything but the commitments is the same in `a` and `b`.
    pub open spec fn same_header(a: Proposal, b: Proposal) -> bool {
        &&& a.id == b.id
        &&& a.proposer == b.proposer
        &&& a.target == b.target
        &&& a.action == b.action
        &&& a.opened_at == b.opened_at
        &&& a.betting_deadline == b.betting_deadline
        &&& a.reveal_deadline == b.reveal_deadline
        &&& a.opening_deadline == b.opening_deadline
        &&& a.phase == b.phase
    }

    /// Open a proposal with its first paid commitment at `now`.
    pub fn new(
        proposer: UserId,
        target: Target,
        action: Action,
        first: PaidCommitment,
        now: Timestamp,
        params: &RoomParams,
    ) -> (r: Self)
        ensures
            r.wf(),
            r.id@ == proposal_id_digest(proposer, target, action, first.hash@),
            r.proposer == proposer,
            r.target == target,
            r.action == action,
            r.opened_at == now,
            r.betting_deadline@ == sat_add(now@, params.betting_window_ms),
            r.reveal_deadline@ == sat_add(r.betting_deadline@, params.commit_to_reveal_window_ms),
            r.opening_deadline@ == sat_add(r.reveal_deadline@, params.opening_window_ms),
            r.phase == Phase::Betting,
            r.commitments@ == seq![
                (proposer, fresh_commitment(first.hash, CommitmentKind::Paid { amount: first.amount })),
            ],
    {
        let id = proposal_id(proposer, target, action, first.hash);
        let betting_deadline = now.saturating_add_millis(params.betting_window_ms);
        let reveal_deadline = betting_deadline.saturating_add_millis(params.commit_to_reveal_window_ms);
        let opening_deadline = reveal_deadline.saturating_add_millis(params.opening_window_ms);
        let mut commitments = IdMap::new();
        commitments.insert(
            proposer,
            UserCommitment {
                hash: first.hash,
                kind: CommitmentKind::Paid { amount: first.amount },
                reveal_hash: None,
                opened: None,
            },
        );
        assert(commitments@.len() == 1);
        Proposal {
            id,
            proposer,
            target,
            action,
            opened_at: now,
            betting_deadline,
            reveal_deadline,
            opening_deadline,
            phase: Phase::Betting,
            commitments,
        }
    }

    /// Set the phase from the clock.
    pub fn advance(&mut self, now: Timestamp)
        ensures
            final(self).phase == phase_at_spec(
                now@,
                old(self).betting_deadline@,
                old(self).reveal_deadline@,
                old(self).opening_deadline@,
            ),
            Proposal::same_header(*final(self), Proposal { phase: final(self).phase, ..*old(self) }),
            final(self).commitments == old(self).commitments,
    {
        self.phase = phase_at(now, self.betting_deadline, self.reveal_deadline, self.opening_deadline);
    }

    /// Stake `user` has locked on this proposal.
    pub fn locked_by(&self, user: &UserId) -> (r: Amount)
        requires
            self.wf(),
        ensures
            r@ == locked_in(self.commitments@, user@),
    {
        match self.commitments.get(user) {
            Some(c) => c.locked(),
            None => Amount::zero(),
        }
    }

    /// `Ok` iff the proposal is in `expected`.
    pub fn require_phase(&self, expected: Phase) -> (r: Result<(), Error>)
        ensures
            r == phase_check(self.phase, expected),
    {
        if self.phase == expected {
            Ok(())
        } else {
            Err(Error::WrongPhase { expected, actual: self.phase })
        }
    }

    /// Paid first-round commitment during betting.
    pub fn commit_paid(&mut self, user: UserId, commit: PaidCommitment) -> (r: Result<(), Error>)
        requires
            old(self).wf(),
        ensures
            final(self).wf(),
            Proposal::same_header(*final(self), *old(self)),
            r == (if old(self).phase != Phase::Betting {
                Err(Error::WrongPhase { expected: Phase::Betting, actual: old(self).phase })
            } else if commit.amount@ == 0 {
                Err(Error::ZeroStake)
            } else {
                old(self).commit_check(user@)
            }),
            r is Err ==> *final(self) == *old(self),
            r is Ok ==> final(self).commitments@ == crate::idmap::insert_spec(
                old(self).commitments@,
                user,
                fresh_commitment(commit.hash, CommitmentKind::Paid { amount: commit.amount }),
            ),
    {
        self.require_phase(Phase::Betting)?;
        if commit.amount.is_zero() {
            return Err(Error::ZeroStake);
        }
        if self.commitments.contains(&user) {
            return Err(Error::AlreadyCommitted);
        }
        self.commitments.insert(
            user,
            UserCommitment {
                hash: commit.hash,
                kind: CommitmentKind::Paid { amount: commit.amount },
                reveal_hash: None,
                opened: None,
            },
        );
        Ok(())
    }

    /// Free first-round commitment during betting.
    pub fn commit_free(&mut self, user: UserId, commit: FreeCommitment) -> (r: Result<(), Error>)
        requires
            old(self).wf(),
        ensures
            final(self).wf(),
            Proposal::same_header(*final(self), *old(self)),
            r == old(self).commit_check(user@),
            r is Err ==> *final(self) == *old(self),
            r is Ok ==> final(self).commitments@ == crate::idmap::insert_spec(
                old(self).commitments@,
                user,
                fresh_commitment(commit.hash, CommitmentKind::Free),
            ),
    {
        self.require_phase(Phase::Betting)?;
        if self.commitments.contains(&user) {
            return Err(Error::AlreadyCommitted);
        }
        self.commitments.insert(
            user,
            UserCommitment {
                hash: commit.hash,
                kind: CommitmentKind::Free,
                reveal_hash: None,
                opened: None,
            },
        );
        Ok(())
    }

    /// Second-round commitment during the commit-to-reveal window.
    pub fn commit_to_reveal(&mut self, user: UserId, reveal: RevealCommit) -> (r: Result<(), Error>)
        requires
            old(self).wf(),
        ensures
            final(self).wf(),
            Proposal::same_header(*final(self), *old(self)),
            r == old(self).reveal_commit_check(user@),
            r is Err ==> *final(self) == *old(self),
            r is Ok ==> final(self).commitments@ == old(self).commitments@.update(
                index_of_key(old(self).commitments@, user@),
                (
                    old(self).commitments@[index_of_key(old(self).commitments@, user@)].0,
                    UserCommitment {
                        reveal_hash: Some(reveal.hash),
                        ..value_at_key(old(self).commitments@, user@)
                    },
                ),
            ),
    {
        self.require_phase(Phase::CommitToReveal)?;
        let i = match self.commitments.find(&user) {
            Some(i) => i,
            None => {
                return Err(Error::NoCommitment);
            },
        };
        let c = self.commitments.entry_at(i).1;
        if c.reveal_hash.is_some() {
            return Err(Error::AlreadyRevealCommitted);
        }
        let ghost s = self.commitments@;
        let slot = self.commitments.value_at_mut(i);
        slot.reveal_hash = Some(reveal.hash);
        proof {
            lemma_update_keeps_wf(s, i as int, UserCommitment { reveal_hash: Some(reveal.hash), ..c });
        }
        Ok(())
    }

    /// Publish the preimage during the opening window.
    pub fn open(&mut self, user: UserId, opening: Opening) -> (r: Result<Direction, Error>)
        requires
            old(self).wf(),
        ensures
            final(self).wf(),
            Proposal::same_header(*final(self), *old(self)),
            r == old(self).open_check(user@, opening),
            r is Err ==> *final(self) == *old(self),
            r is Ok ==> final(self).commitments@ == old(self).commitments@.update(
                index_of_key(old(self).commitments@, user@),
                (
                    old(self).commitments@[index_of_key(old(self).commitments@, user@)].0,
                    UserCommitment {
                        opened: Some(opening.direction),
                        ..value_at_key(old(self).commitments@, user@)
                    },
                ),
            ),
    {
        self.require_phase(Phase::Opening)?;
        let i = match self.commitments.find(&user) {
            Some(i) => i,
            None => {
                return Err(Error::NoCommitment);
            },
        };
        let c = self.commitments.entry_at(i).1;
        if c.opened.is_some() {
            return Err(Error::AlreadyOpened);
        }
        let reveal = match c.reveal_hash {
            Some(h) => h,
            None => {
                return Err(Error::NoRevealCommit);
            },
        };
        let amount = c.locked();
        if !verify_commit(c.hash, amount, &opening) || !verify_reveal(reveal, c.hash, &opening) {
            return Err(Error::OpeningVerifyFailed);
        }
        let ghost s = self.commitments@;
        let slot = self.commitments.value_at_mut(i);
        slot.opened = Some(opening.direction);
        proof {
            lemma_update_keeps_wf(s, i as int, UserCommitment { opened: Some(opening.direction), ..c });
        }
        Ok(opening.direction)
    }

    /// Public snapshot. Never includes direction.
    pub fn view(&self) -> (r: ProposalView)
        ensures
            r.id == self.id,
            r.proposer == self.proposer,
            r.target == self.target,
            r.action == self.action,
            r.phase == self.phase,
            r.opened_at == self.opened_at,
            r.betting_deadline == self.betting_deadline,
            r.reveal_deadline == self.reveal_deadline,
            r.opening_deadline == self.opening_deadline,
            r.commitment_count == self.commitments@.len(),
            r.total_locked@ == total_locked_spec(self.commitments@),
    {
        let mut total_locked = Amount::zero();
        let mut i: usize = 0;
        while i < self.commitments.len()
            invariant
                0 <= i <= self.commitments@.len(),
                total_locked@ == total_locked_spec(self.commitments@.take(i as int)),
            decreases self.commitments@.len() - i,
        {
            let c = self.commitments.entry_at(i).1;
            assert(self.commitments@.take(i + 1).drop_last() =~= self.commitments@.take(i as int));
            total_locked = total_locked.saturating_add(c.locked());
            i = i + 1;
        }
        assert(self.commitments@.take(self.commitments@.len() as int) =~= self.commitments@);
        ProposalView {
            id: self.id,
            proposer: self.proposer,
            target: self.target,
            action: self.action,
            phase: self.phase,
            opened_at: self.opened_at,
            betting_deadline: self.betting_deadline,
            reveal_deadline: self.reveal_deadline,
            opening_deadline: self.opening_deadline,
            commitment_count: self.commitments.len(),
            total_locked,
        }
    }
}

proof fn lemma_update_keeps_wf(s: Seq<(UserId, UserCommitment)>, i: int, c: UserCommitment)
    requires
        crate::idmap::entries_wf(s),
        0 <= i < s.len(),
    ensures
        crate::idmap::entries_wf(s.update(i, (s[i].0, c))),
        index_of_key(s, s[i].0@) == i,
{
    let t = s.update(i, (s[i].0, c));
    assert forall|a: int, b: int| 0 <= a < b < t.len() implies crate::order::lex_lt(
        #[trigger] t[a].0.key(),
        #[trigger] t[b].0.key(),
    ) by {
        assert(t[a].0 == s[a].0);
        assert(t[b].0 == s[b].0);
    }
    assert forall|j: int| 0 <= j < t.len() implies (#[trigger] t[j].0.key()).len() == 32 by {
        assert(t[j].0 == s[j].0);
    }
    lemma_index_of_key(s, i);
}

/// Identifier of a proposal: hash of proposer, target, action and first commitment.
pub fn proposal_id(proposer: UserId, target: Target, action: Action, first_commit: types::Hash) -> (r:
    ProposalId)
    ensures
        r@ == proposal_id_digest(proposer, target, action, first_commit@),
{
    let mut e = Encoder::new();
    e.bytes32(proposer.as_bytes());
    encode_target(&mut e, target);
    encode_action(&mut e, action);
    e.bytes32(first_commit.as_bytes());
    assert(e@ =~= proposal_id_body(proposer, target, action, first_commit@));
    let hash = hash_tagged(TAG_PROPOSAL.as_bytes(), e.as_slice());
    ProposalId::from_bytes(*hash.as_bytes())
}

/// Phase at `now`: before the betting deadline, betting; then commit-to-reveal;
/// then opening; from the opening deadline on, awaiting settlement.
pub fn phase_at(
    now: Timestamp,
    betting_deadline: Timestamp,
    reveal_deadline: Timestamp,
    opening_deadline: Timestamp,
) -> (r: Phase)
    ensures
        r == phase_at_spec(now@, betting_deadline@, reveal_deadline@, opening_deadline@),
{
    if now.millis() < betting_deadline.millis() {
        Phase::Betting
    } else if now.millis() < reveal_deadline.millis() {
        Phase::CommitToReveal
    } else if now.millis() < opening_deadline.millis() {
        Phase::Opening
    } else {
        Phase::AwaitingSettlement
    }
}

/// Public snapshot. Never includes direction.
#[derive(Clone, Copy, Debug, PartialEq, Eq)]
pub struct ProposalView {
    pub id: ProposalId,
    pub proposer: UserId,
    pub target: Target,
    pub action: Action,
    pub phase: Phase,
    pub opened_at: Timestamp,
    pub betting_deadline: Timestamp,
    pub reveal_deadline: Timestamp,
    pub opening_deadline: Timestamp,
    pub commitment_count: usize,
    pub total_locked: Amount,
}

} // verus!
