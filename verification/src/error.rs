//! Typed errors returned by the state machine.

use vstd::prelude::*;

use crate::types::Phase;

verus! {

/// Recoverable rejection or integrity failure.
#[derive(Clone, Copy, Debug, PartialEq, Eq, Structural)]
pub enum Error {
    /// Genesis must list at least one founding member.
    GenesisEmpty,
    /// Genesis lists a founder more than once.
    DuplicateFounder,
    /// The action is not valid for this target.
    InvalidActionForTarget,
    /// A paid commitment amount must be greater than zero.
    ZeroStake,
    /// Insufficient available balance.
    InsufficientBalance,
    /// Only users with a strictly positive balance may open a proposal.
    ZeroBalanceCannotOpen,
    /// The proposer already has an open proposal.
    ProposerHasOpenProposal,
    /// An open proposal already exists for this (target, action) pair.
    DuplicateTargetAction,
    /// Proposal not found.
    ProposalNotFound,
    /// The command is not valid in the current phase.
    WrongPhase { expected: Phase, actual: Phase },
    /// The user already has a commitment on this proposal.
    AlreadyCommitted,
    /// The user already posted a commit-to-reveal.
    AlreadyRevealCommitted,
    /// The user already opened this commitment.
    AlreadyOpened,
    /// The user already has an outstanding free commitment.
    OutstandingFreeCommit,
    /// Free commitments are only allowed while the balance is exactly zero.
    BalanceNotZero,
    /// The opening failed commitment verification.
    OpeningVerifyFailed,
    /// The user has no commitment on this proposal.
    NoCommitment,
    /// The user has not posted a commit-to-reveal.
    NoRevealCommit,
    /// Settlement is only allowed after the opening deadline.
    NotYetSettlable,
    /// The settlement log hash chain is broken.
    BrokenHashChain,
    /// A settlement entry hash does not match its body.
    SettlementHashMismatch,
    /// Arithmetic overflow.
    Overflow,
}

} // verus!
