//! Commit–reveal commitments: the first-round hash over direction, amount and
//! salt, and the second-round hash that binds the opening to the first hash.

use vstd::prelude::*;
use vstd::string::StringSliceAdditionalSpecFns;

use crate::types;

use crate::amount::Amount;
use crate::crypto::{hash_tagged, sha256_digest, tagged};
use crate::encode::{be_u64, Encoder, TAG_COMMIT, TAG_REVEAL};
use crate::order::{bytes_from_byte, byte_id, same_bytes};
use crate::types::{direction_wire, Direction};

verus! {

/// Secret 32-byte blinding value chosen by the committer.
#[derive(Clone, Copy, Debug, PartialEq, Eq, PartialOrd, Ord, Hash)]
pub struct Salt(pub [u8; 32]);

impl View for Salt {
    type V = Seq<u8>;

    open spec fn view(&self) -> Seq<u8> {
        self.0@
    }
}

impl Salt {
    /// Wrap a raw 32-byte value.
    pub fn from_bytes(bytes: [u8; 32]) -> (r: Self)
        ensures
            r.0 == bytes,
    {
        Salt(bytes)
    }

    /// Convenience constructor for tests and examples: byte 0 is `n`, rest zero.
    pub fn from_byte(n: u8) -> (r: Self)
        ensures
            r@ == byte_id(n),
    {
        Salt(bytes_from_byte(n))
    }

    /// Borrow the raw bytes.
    pub fn as_bytes(&self) -> (r: &[u8; 32])
        ensures
            *r == self.0,
    {
        &self.0
    }

    /// Whether both values hold the same 32 bytes.
    pub fn same(&self, other: &Self) -> (r: bool)
        ensures
            r == (self@ == other@),
    {
        same_bytes(&self.0, &other.0)
    }
}

/// The preimage a user keeps on their device until the opening window.
#[derive(Clone, Copy, Debug, PartialEq, Eq, Hash)]
pub struct Opening {
    pub direction: Direction,
    pub salt: Salt,
}

/// First-round paid commitment: hash plus the public locked amount.
#[derive(Clone, Copy, Debug, PartialEq, Eq)]
pub struct PaidCommitment {
    pub hash: types::Hash,
    pub amount: Amount,
}

/// First-round free commitment of a zero-balance user. No lock.
#[derive(Clone, Copy, Debug, PartialEq, Eq)]
pub struct FreeCommitment {
    pub hash: types::Hash,
}

/// Second-round commitment to the opening, posted in the commit-to-reveal window.
#[derive(Clone, Copy, Debug, PartialEq, Eq)]
pub struct RevealCommit {
    pub hash: types::Hash,
}

/// Body of a first-round commitment: direction byte, amount, salt.
pub open spec fn commit_body(direction: Direction, amount: u64, salt: Seq<u8>) -> Seq<u8> {
    seq![direction_wire(direction)] + be_u64(amount) + salt
}

/// First-round digest of an opening locking `amount` subunits.
pub open spec fn commit_digest(o: Opening, amount: u64) -> Seq<u8> {
    sha256_digest(tagged(TAG_COMMIT.spec_bytes(), commit_body(o.direction, amount, o.salt@)))
}

/// Body of a second-round commitment: first hash, direction byte, salt.
pub open spec fn reveal_body(first: Seq<u8>, direction: Direction, salt: Seq<u8>) -> Seq<u8> {
    first + seq![direction_wire(direction)] + salt
}

/// Second-round digest binding an opening to the first-round hash `first`.
pub open spec fn reveal_digest(o: Opening, first: Seq<u8>) -> Seq<u8> {
    sha256_digest(tagged(TAG_REVEAL.spec_bytes(), reveal_body(first, o.direction, o.salt@)))
}

/// The committed message determines the opening: two openings (with their
/// 32-byte salts) and amounts that hash the same first-round message agree on
/// direction, amount and salt; likewise the second-round message determines
/// the first-round hash, the direction and the salt. What is left to binding
/// is the digest itself.
pub proof fn law_commit_messages_are_unambiguous(o1: Opening, a1: u64, o2: Opening, a2: u64, f1: Seq<u8>, f2: Seq<u8>)
    ensures
        commit_body(o1.direction, a1, o1.salt@) == commit_body(o2.direction, a2, o2.salt@) ==> o1.direction
            == o2.direction && a1 == a2 && o1.salt@ == o2.salt@,
        f1.len() == f2.len() && reveal_body(f1, o1.direction, o1.salt@) == reveal_body(f2, o2.direction, o2.salt@)
            ==> f1 == f2 && o1.direction == o2.direction && o1.salt@ == o2.salt@,
{
    let b1 = commit_body(o1.direction, a1, o1.salt@);
    let b2 = commit_body(o2.direction, a2, o2.salt@);
    if b1 == b2 {
        assert(b1[0] == b2[0]);
        assert(be_u64(a1) =~= b1.subrange(1, 9));
        assert(be_u64(a2) =~= b2.subrange(1, 9));
        crate::encode::lemma_be_u64_injective(a1, a2);
        assert(o1.salt@ =~= b1.subrange(9, b1.len() as int));
        assert(o2.salt@ =~= b2.subrange(9, b2.len() as int));
    }
    let r1 = reveal_body(f1, o1.direction, o1.salt@);
    let r2 = reveal_body(f2, o2.direction, o2.salt@);
    if f1.len() == f2.len() && r1 == r2 {
        let n = f1.len() as int;
        assert(f1 =~= r1.subrange(0, n));
        assert(f2 =~= r2.subrange(0, n));
        assert(r1[n] == r2[n]);
        assert(o1.salt@ =~= r1.subrange(n + 1, r1.len() as int));
        assert(o2.salt@ =~= r2.subrange(n + 1, r2.len() as int));
    }
}

/// First-round hash of `opening` locking `amount`.
pub fn commit_hash(opening: &Opening, amount: Amount) -> (r: types::Hash)
    ensures
        r@ == commit_digest(*opening, amount@),
{
    let mut e = Encoder::new();
    e.u8(opening.direction.wire());
    e.u64(amount.subunits());
    e.bytes32(opening.salt.as_bytes());
    assert(e@ =~= commit_body(opening.direction, amount@, opening.salt@));
    hash_tagged(TAG_COMMIT.as_bytes(), e.as_slice())
}

/// Second-round hash of `opening`, bound to the first-round hash `first`.
pub fn reveal_hash(opening: &Opening, first: types::Hash) -> (r: types::Hash)
    ensures
        r@ == reveal_digest(*opening, first@),
{
    let mut e = Encoder::new();
    e.bytes32(first.as_bytes());
    e.u8(opening.direction.wire());
    e.bytes32(opening.salt.as_bytes());
    assert(e@ =~= reveal_body(first@, opening.direction, opening.salt@));
    hash_tagged(TAG_REVEAL.as_bytes(), e.as_slice())
}

impl Opening {
    /// The opening of a bet on `direction` with `salt`.
    pub fn new(direction: Direction, salt: Salt) -> (r: Self)
        ensures
            r.direction == direction,
            r.salt == salt,
    {
        Opening { direction, salt }
    }

    /// First-round hash for a paid commitment of `amount`.
    pub fn commit_hash(&self, amount: Amount) -> (r: types::Hash)
        ensures
            r@ == commit_digest(*self, amount@),
    {
        commit_hash(self, amount)
    }

    /// Second-round hash bound to `first`.
    pub fn reveal_hash(&self, first: types::Hash) -> (r: types::Hash)
        ensures
            r@ == reveal_digest(*self, first@),
    {
        reveal_hash(self, first)
    }

    /// Paid first-round commitment locking `amount`.
    pub fn paid_commitment(&self, amount: Amount) -> (r: PaidCommitment)
        ensures
            r.hash@ == commit_digest(*self, amount@),
            r.amount == amount,
    {
        PaidCommitment { hash: commit_hash(self, amount), amount }
    }

    /// Free first-round commitment: the commit hash at amount zero.
    pub fn free_commitment(&self) -> (r: FreeCommitment)
        ensures
            r.hash@ == commit_digest(*self, 0),
    {
        FreeCommitment { hash: commit_hash(self, Amount::zero()) }
    }
}

/// Does `opening` open the first-round `hash` at `amount`?
pub fn verify_commit(hash: types::Hash, amount: Amount, opening: &Opening) -> (r: bool)
    ensures
        r == (hash@ == commit_digest(*opening, amount@)),
{
    let h = commit_hash(opening, amount);
    same_bytes(&h.0, &hash.0)
}

/// Does `opening` open the second-round `reveal`, bound to `first`?
pub fn verify_reveal(reveal: types::Hash, first: types::Hash, opening: &Opening) -> (r: bool)
    ensures
        r == (reveal@ == reveal_digest(*opening, first@)),
{
    let h = reveal_hash(opening, first);
    same_bytes(&h.0, &reveal.0)
}

} // verus!
