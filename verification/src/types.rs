//! Opaque identifiers and protocol enumerations.

use vstd::prelude::*;

use crate::encode::{be_u64, Encoder};
use crate::order::{bytes_from_byte, byte_id, same_bytes, Keyed};

verus! {

/// Host-assigned participant identity. This crate does not authenticate it.
#[derive(Clone, Copy, Debug, PartialEq, Eq, PartialOrd, Ord, Hash)]
pub struct UserId(pub [u8; 32]);

impl View for UserId {
    type V = Seq<u8>;

    open spec fn view(&self) -> Seq<u8> {
        self.0@
    }
}

impl Keyed for UserId {
    open spec fn key(&self) -> Seq<u8> {
        self.0@
    }

    fn key_bytes(&self) -> (r: [u8; 32]) {
        self.0
    }
}

impl UserId {
    /// Wrap a raw 32-byte value.
    pub fn from_bytes(bytes: [u8; 32]) -> (r: Self)
        ensures
            r.0 == bytes,
    {
        UserId(bytes)
    }

    /// Convenience constructor for tests and examples: byte 0 is `n`, rest zero.
    pub fn from_byte(n: u8) -> (r: Self)
        ensures
            r@ == byte_id(n),
    {
        UserId(bytes_from_byte(n))
    }

    /// Borrow the raw bytes.
    pub fn as_bytes(&self) -> (r: &[u8; 32])
        ensures
            *r == self.0,
    {
        &self.0
    }

    /// Whether both values hold the same 32 bytes.
    pub fn same(&self, other: &Self) -> (r: bool)
        ensures
            r == (self@ == other@),
    {
        same_bytes(&self.0, &other.0)
    }
}

/// Hash (or other 32-byte reference) of a chat message, supplied by the host.
#[derive(Clone, Copy, Debug, PartialEq, Eq, PartialOrd, Ord, Hash)]
pub struct MessageId(pub [u8; 32]);

impl View for MessageId {
    type V = Seq<u8>;

    open spec fn view(&self) -> Seq<u8> {
        self.0@
    }
}

impl Keyed for MessageId {
    open spec fn key(&self) -> Seq<u8> {
        self.0@
    }

    fn key_bytes(&self) -> (r: [u8; 32]) {
        self.0
    }
}

impl MessageId {
    /// Wrap a raw 32-byte value.
    pub fn from_bytes(bytes: [u8; 32]) -> (r: Self)
        ensures
            r.0 == bytes,
    {
        MessageId(bytes)
    }

    /// Convenience constructor for tests and examples: byte 0 is `n`, rest zero.
    pub fn from_byte(n: u8) -> (r: Self)
        ensures
            r@ == byte_id(n),
    {
        MessageId(bytes_from_byte(n))
    }

    /// Borrow the raw bytes.
    pub fn as_bytes(&self) -> (r: &[u8; 32])
        ensures
            *r == self.0,
    {
        &self.0
    }

    /// Whether both values hold the same 32 bytes.
    pub fn same(&self, other: &Self) -> (r: bool)
        ensures
            r == (self@ == other@),
    {
        same_bytes(&self.0, &other.0)
    }
}

/// Deterministic proposal identifier: hash of proposer, target, action, first commit.
#[derive(Clone, Copy, Debug, PartialEq, Eq, PartialOrd, Ord, Hash)]
pub struct ProposalId(pub [u8; 32]);

impl View for ProposalId {
    type V = Seq<u8>;

    open spec fn view(&self) -> Seq<u8> {
        self.0@
    }
}

impl Keyed for ProposalId {
    open spec fn key(&self) -> Seq<u8> {
        self.0@
    }

    fn key_bytes(&self) -> (r: [u8; 32]) {
        self.0
    }
}

impl ProposalId {
    /// Wrap a raw 32-byte value.
    pub fn from_bytes(bytes: [u8; 32]) -> (r: Self)
        ensures
            r.0 == bytes,
    {
        ProposalId(bytes)
    }

    /// Convenience constructor for tests and examples: byte 0 is `n`, rest zero.
    pub fn from_byte(n: u8) -> (r: Self)
        ensures
            r@ == byte_id(n),
    {
        ProposalId(bytes_from_byte(n))
    }

    /// Borrow the raw bytes.
    pub fn as_bytes(&self) -> (r: &[u8; 32])
        ensures
            *r == self.0,
    {
        &self.0
    }

    /// Whether both values hold the same 32 bytes.
    pub fn same(&self, other: &Self) -> (r: bool)
        ensures
            r == (self@ == other@),
    {
        same_bytes(&self.0, &other.0)
    }
}

/// SHA-256 digest.
#[derive(Clone, Copy, Debug, PartialEq, Eq, PartialOrd, Ord, Hash)]
pub struct Hash(pub [u8; 32]);

impl View for Hash {
    type V = Seq<u8>;

    open spec fn view(&self) -> Seq<u8> {
        self.0@
    }
}

impl Keyed for Hash {
    open spec fn key(&self) -> Seq<u8> {
        self.0@
    }

    fn key_bytes(&self) -> (r: [u8; 32]) {
        self.0
    }
}

impl Hash {
    /// Wrap a raw 32-byte value.
    pub fn from_bytes(bytes: [u8; 32]) -> (r: Self)
        ensures
            r.0 == bytes,
    {
        Hash(bytes)
    }

    /// Convenience constructor for tests and examples: byte 0 is `n`, rest zero.
    pub fn from_byte(n: u8) -> (r: Self)
        ensures
            r@ == byte_id(n),
    {
        Hash(bytes_from_byte(n))
    }

    /// Borrow the raw bytes.
    pub fn as_bytes(&self) -> (r: &[u8; 32])
        ensures
            *r == self.0,
    {
        &self.0
    }

    /// Whether both values hold the same 32 bytes.
    pub fn same(&self, other: &Self) -> (r: bool)
        ensures
            r == (self@ == other@),
    {
        same_bytes(&self.0, &other.0)
    }
}
} // verus!

verus! {

/// Unix time in milliseconds, supplied by the host on every `apply` / `tick`.
///
/// Hosts that disagree on time can disagree on window close and settlement.
#[derive(Clone, Copy, Debug, Default, PartialEq, Eq, Structural, PartialOrd, Ord, Hash)]
pub struct Timestamp(u64);

impl View for Timestamp {
    type V = u64;

    closed spec fn view(&self) -> u64 {
        self.0
    }
}

/// The timestamp at `ms` milliseconds.
pub closed spec fn ts(ms: u64) -> Timestamp {
    Timestamp(ms)
}

pub broadcast proof fn lemma_ts_view(ms: u64)
    ensures
        #[trigger] ts(ms)@ == ms,
{
}

pub broadcast proof fn lemma_ts_of_view(t: Timestamp)
    ensures
        #[trigger] ts(t@) == t,
{
}

impl Timestamp {
    /// Construct from Unix milliseconds.
    pub fn from_millis(ms: u64) -> (r: Self)
        ensures
            r@ == ms,
    {
        Timestamp(ms)
    }

    /// Unix milliseconds.
    pub fn millis(self) -> (r: u64)
        ensures
            r == self@,
    {
        self.0
    }

    /// Saturating add of a millisecond delta.
    pub fn saturating_add_millis(self, delta: u64) -> (r: Self)
        ensures
            r@ == crate::amount::sat_add(self@, delta),
    {
        Timestamp(self.0.saturating_add(delta))
    }
}

/// Restriction duration in seconds; `u64::MAX` is the permanent sentinel.
#[derive(Clone, Copy, Debug, PartialEq, Eq, Structural, PartialOrd, Ord, Hash)]
pub struct DurationSecs(u64);

impl View for DurationSecs {
    type V = u64;

    closed spec fn view(&self) -> u64 {
        self.0
    }
}

/// The duration of `secs` seconds.
pub closed spec fn dur(secs: u64) -> DurationSecs {
    DurationSecs(secs)
}

pub broadcast proof fn lemma_dur_view(secs: u64)
    ensures
        #[trigger] dur(secs)@ == secs,
{
}

pub broadcast proof fn lemma_dur_of_view(d: DurationSecs)
    ensures
        #[trigger] dur(d@) == d,
{
}

pub broadcast group group_time {
    lemma_ts_view,
    lemma_ts_of_view,
    lemma_dur_view,
    lemma_dur_of_view,
}

impl DurationSecs {
    /// Permanent restriction (`u64::MAX` seconds).
    pub fn permanent() -> (r: Self)
        ensures
            r@ == u64::MAX,
    {
        DurationSecs(u64::MAX)
    }

    /// Finite duration in seconds.
    pub fn from_secs(secs: u64) -> (r: Self)
        ensures
            r@ == secs,
    {
        DurationSecs(secs)
    }

    /// Seconds (or `u64::MAX` if permanent).
    pub fn secs(self) -> (r: u64)
        ensures
            r == self@,
    {
        self.0
    }

    /// `true` for the permanent sentinel.
    pub fn is_permanent(self) -> (r: bool)
        ensures
            r == (self@ == u64::MAX),
    {
        self.0 == u64::MAX
    }
}

/// Lifecycle of an ephemeral proposal.
#[derive(Clone, Copy, Debug, PartialEq, Eq, Structural, Hash)]
pub enum Phase {
    /// Direction-secret, amount-public betting.
    Betting,
    /// Second commitment to the opening; directions still hidden.
    CommitToReveal,
    /// Preimages published; settlement waits for the deadline.
    Opening,
    /// Opening window closed; `Command::Settle` is legal.
    AwaitingSettlement,
}

/// Secret (until opening) side of a bet.
#[derive(Clone, Copy, Debug, PartialEq, Eq, Structural, Hash)]
pub enum Direction {
    /// Oppose the action. Encoded as `0`.
    No,
    /// Support the action. Encoded as `1`.
    Yes,
}

/// Wire byte of a direction.
pub open spec fn direction_wire(d: Direction) -> u8 {
    match d {
        Direction::No => 0,
        Direction::Yes => 1,
    }
}

impl Direction {
    pub(crate) fn wire(self) -> (r: u8)
        ensures
            r == direction_wire(self),
    {
        match self {
            Direction::No => 0,
            Direction::Yes => 1,
        }
    }
}

/// Proposed moderation action.
#[derive(Clone, Copy, Debug, PartialEq, Eq, Structural, PartialOrd, Ord, Hash)]
pub enum Action {
    /// Remove a message. Only valid with [`Target::Message`].
    RemoveMessage,
    /// Restrict a user from sending for `duration`. Only valid with [`Target::User`].
    Restrict { duration: DurationSecs },
}

/// What the proposal is about.
#[derive(Clone, Copy, Debug, PartialEq, Eq, PartialOrd, Ord, Hash)]
pub enum Target {
    /// A chat message, identified by the host's message hash.
    Message(MessageId),
    /// A participant.
    User(UserId),
}

/// Message actions pair with message targets; restrictions with users.
pub open spec fn valid_pair(action: Action, target: Target) -> bool {
    (action is RemoveMessage && target is Message) || (action is Restrict && target is User)
}

impl Action {
    /// Message actions only pair with message targets; restrictions only with users.
    pub fn is_valid_for(self, target: Target) -> (r: bool)
        ensures
            r == valid_pair(self, target),
    {
        match (self, target) {
            (Action::RemoveMessage, Target::Message(_)) => true,
            (Action::Restrict { .. }, Target::User(_)) => true,
            _ => false,
        }
    }

    /// Whether two actions are the same (same kind and, for restrictions, same duration).
    pub fn same(self, other: Action) -> (r: bool)
        ensures
            r == (self == other),
    {
        match (self, other) {
            (Action::RemoveMessage, Action::RemoveMessage) => true,
            (Action::Restrict { duration: a }, Action::Restrict { duration: b }) => {
                proof {
                    broadcast use group_time;
                }
                a.secs() == b.secs()
            },
            _ => false,
        }
    }
}

/// Same-target test on the spec side: same kind and same bytes.
pub open spec fn same_target(a: Target, b: Target) -> bool {
    match (a, b) {
        (Target::Message(x), Target::Message(y)) => x@ == y@,
        (Target::User(x), Target::User(y)) => x@ == y@,
        _ => false,
    }
}

/// Two proposal ids with the same bytes are the same id.
pub proof fn lemma_proposal_id_eq(a: ProposalId, b: ProposalId)
    requires
        a@ == b@,
    ensures
        a == b,
{
    assert(a.0 =~= b.0) by {
        assert forall|i: int| 0 <= i < 32 implies a.0[i] == b.0[i] by {
            assert(a.0@[i] == b.0@[i]);
        }
    }
}

/// Being the same target is symmetric.
pub proof fn lemma_same_target_symmetric(a: Target, b: Target)
    ensures
        same_target(a, b) == same_target(b, a),
{
}

/// Being the same target is transitive.
pub proof fn lemma_same_target_transitive(a: Target, b: Target, c: Target)
    requires
        same_target(a, b),
        same_target(b, c),
    ensures
        same_target(a, c),
{
    match (a, b, c) {
        (Target::Message(x), Target::Message(y), Target::Message(z)) => {},
        (Target::User(x), Target::User(y), Target::User(z)) => {},
        _ => {},
    }
}

impl Target {
    /// Whether two targets are the same.
    pub fn same(self, other: Target) -> (r: bool)
        ensures
            r == same_target(self, other),
    {
        match (self, other) {
            (Target::Message(x), Target::Message(y)) => x.same(&y),
            (Target::User(x), Target::User(y)) => x.same(&y),
            _ => false,
        }
    }
}

/// Encoding of a target: a kind byte and the 32 id bytes.
pub open spec fn target_bytes(t: Target) -> Seq<u8> {
    match t {
        Target::Message(id) => seq![0u8] + id@,
        Target::User(id) => seq![1u8] + id@,
    }
}

/// Encoding of an action: a kind byte and, for restrictions, the seconds.
pub open spec fn action_bytes(a: Action) -> Seq<u8> {
    match a {
        Action::RemoveMessage => seq![0u8],
        Action::Restrict { duration } => seq![1u8] + be_u64(duration@),
    }
}

pub(crate) fn encode_target(encoder: &mut Encoder, target: Target)
    ensures
        final(encoder)@ == old(encoder)@ + target_bytes(target),
{
    match target {
        Target::Message(id) => {
            encoder.u8(0);
            encoder.bytes32(id.as_bytes());
            assert(encoder@ =~= old(encoder)@ + target_bytes(target));
        },
        Target::User(id) => {
            encoder.u8(1);
            encoder.bytes32(id.as_bytes());
            assert(encoder@ =~= old(encoder)@ + target_bytes(target));
        },
    }
}

pub(crate) fn encode_action(encoder: &mut Encoder, action: Action)
    ensures
        final(encoder)@ == old(encoder)@ + action_bytes(action),
{
    match action {
        Action::RemoveMessage => {
            encoder.u8(0);
            assert(encoder@ =~= old(encoder)@ + action_bytes(action));
        },
        Action::Restrict { duration } => {
            encoder.u8(1);
            encoder.u64(duration.secs());
            assert(encoder@ =~= old(encoder)@ + action_bytes(action));
        },
    }
}

} // verus!
