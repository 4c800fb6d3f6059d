//! Deterministic futarchy gadget for decentralized chat moderation.
//!
//! This crate is a transport-agnostic state machine. A host authenticates users,
//! supplies a clock, gossips [`Command`]s, and applies recorded consensus
//! (hide a message, refuse to relay from a restricted user).
//!
//! Tokens are room-local. Balances are derived by replaying the genesis record
//! plus an append-only settlement log. Ephemeral proposal state (commitments,
//! locks, timers) is deleted on settlement.
//!
//! # Time
//!
//! [`Timestamp`] is Unix milliseconds supplied by the host. Window deadlines are
//! absolute timestamps computed when a proposal opens. Hosts that disagree on
//! time can disagree on settlement.
//!
//! # Persistence
//!
//! Persist [`Genesis`] and [`SettlementEntry`] values. [`Room::from_log`]
//! rebuilds balances and restrictions. Open proposals are ephemeral and are not
//! in the log.

pub mod amount;
pub mod balances;
pub mod command;
pub mod commitment;
pub mod crypto;
pub mod decode;
pub mod encode;
pub mod escrow;
pub mod error;
pub mod genesis;
pub mod idmap;
pub mod order;
pub mod params;
pub mod payout;
pub mod proposal;
pub mod restriction;
pub mod room;
pub mod settlement;
pub mod threshold;
pub mod types;

pub use amount::{Amount, TOKEN};
pub use command::{Command, Outcome};
pub use commitment::{
    commit_hash, reveal_hash, FreeCommitment, Opening, PaidCommitment, RevealCommit, Salt,
};
pub use error::Error;
pub use genesis::Genesis;
pub use params::{
    Ratio, RoomParams, SeverityClass, SeverityThreshold, DEFAULT_BETTING_WINDOW_MS,
    DEFAULT_COMMIT_TO_REVEAL_WINDOW_MS, DEFAULT_OPENING_WINDOW_MS,
};
pub use proposal::ProposalView;
pub use restriction::Restriction;
pub use room::Room;
pub use settlement::{OutcomeKind, Payout, SettlementEntry};
pub use types::{
    Action, Direction, DurationSecs, MessageId, Phase, ProposalId, Target, Timestamp, UserId,
};

use vstd::prelude::*;

verus! {

/// The 32-byte digest type, at the crate root as well as in `types`.
pub type Hash = types::Hash;

} // verus!
