//! Genesis record: founding members and frozen room parameters.

use vstd::prelude::*;
use vstd::string::StringSliceAdditionalSpecFns;

use crate::crypto::{hash_tagged, sha256_digest, tagged};
use crate::encode::{be_u32, be_u64, Encoder, TAG_GENESIS};
use crate::error::Error;
use crate::params::{RoomParams, SeverityThreshold};
use crate::settlement::users_bytes;
use crate::types;
use crate::types::UserId;

verus! {

/// No user appears twice in `s`.
pub open spec fn distinct_users(s: Seq<UserId>) -> bool {
    forall|i: int, j: int| 0 <= i < j < s.len() ==> (#[trigger] s[i])@ != (#[trigger] s[j])@
}

/// Room birth record. Each founder is granted exactly one token.
#[derive(Debug, PartialEq, Eq)]
pub struct Genesis {
    founders: Vec<UserId>,
    params: RoomParams,
}

impl Genesis {
    /// At least one founder, none listed twice.
    #[verifier::type_invariant]
    spec fn inv(self) -> bool {
        self.founders@.len() > 0 && distinct_users(self.founders@)
    }

    /// The founding members, in the order given.
    pub closed spec fn founder_list(self) -> Seq<UserId> {
        self.founders@
    }

    /// The frozen parameters.
    pub closed spec fn param_set(self) -> RoomParams {
        self.params
    }

    /// Reject empty or duplicate founder lists.
    pub fn new(founders: Vec<UserId>, params: RoomParams) -> (r: Result<Self, Error>)
        ensures
            founders@.len() == 0 ==> r == Err::<Self, Error>(Error::GenesisEmpty),
            founders@.len() > 0 && !distinct_users(founders@) ==> r == Err::<Self, Error>(
                Error::DuplicateFounder,
            ),
            founders@.len() > 0 && distinct_users(founders@) ==> (r matches Ok(g) && g.founder_list()
                == founders@ && g.param_set() == params),
    {
        if founders.len() == 0 {
            return Err(Error::GenesisEmpty);
        }
        let mut j: usize = 1;
        while j < founders.len()
            invariant
                1 <= j <= founders@.len(),
                distinct_users(founders@.take(j as int)),
            decreases founders@.len() - j,
        {
            let mut i: usize = 0;
            while i < j
                invariant
                    0 <= i <= j < founders@.len(),
                    forall|k: int| 0 <= k < i ==> founders@[k]@ != founders@[j as int]@,
                decreases j - i,
            {
                if founders[i].same(&founders[j]) {
                    assert(!distinct_users(founders@)) by {
                        assert(founders@[i as int]@ == founders@[j as int]@);
                    }
                    return Err(Error::DuplicateFounder);
                }
                i = i + 1;
            }
            assert(distinct_users(founders@.take(j + 1))) by {
                let t = founders@.take(j + 1);
                assert forall|a: int, b: int| 0 <= a < b < t.len() implies (#[trigger] t[a])@ != (
                #[trigger] t[b])@ by {
                    if b < j {
                        assert(founders@.take(j as int)[a] == t[a]);
                        assert(founders@.take(j as int)[b] == t[b]);
                    }
                }
            }
            j = j + 1;
        }
        assert(founders@.take(founders@.len() as int) =~= founders@);
        assert(distinct_users(founders@));
        Ok(Genesis { founders, params })
    }

    /// The founders; there is at least one, and none is listed twice.
    pub fn founders(&self) -> (r: &[UserId])
        ensures
            r@ == self.founder_list(),
            r@.len() > 0,
            distinct_users(r@),
    {
        proof {
            use_type_invariant(self);
        }
        self.founders.as_slice()
    }

    /// The room parameters, frozen at genesis.
    pub fn params(&self) -> (r: &RoomParams)
        ensures
            *r == self.param_set(),
    {
        &self.params
    }

    /// Hash of the parameters and the founder list.
    pub fn hash(&self) -> (r: types::Hash)
        ensures
            r@ == genesis_digest(*self),
    {
        let mut e = Encoder::new();
        encode_params(&mut e, &self.params);
        e.u32(#[verifier::truncate] (self.founders.len() as u32));
        let mut i: usize = 0;
        while i < self.founders.len()
            invariant
                0 <= i <= self.founders@.len(),
                e@ == params_bytes(self.params) + be_u32(self.founders@.len() as u32) + users_bytes(
                    self.founders@.take(i as int),
                ),
            decreases self.founders@.len() - i,
        {
            e.bytes32(self.founders[i].as_bytes());
            assert(self.founders@.take(i + 1).drop_last() =~= self.founders@.take(i as int));
            assert(e@ =~= params_bytes(self.params) + be_u32(self.founders@.len() as u32) + users_bytes(
                self.founders@.take(i + 1),
            ));
            i = i + 1;
        }
        assert(self.founders@.take(self.founders@.len() as int) =~= self.founders@);
        hash_tagged(TAG_GENESIS.as_bytes(), e.as_slice())
    }
}

impl Clone for Genesis {
    fn clone(&self) -> (r: Self)
        ensures
            r.founder_list() == self.founder_list(),
            r.param_set() == self.param_set(),
    {
        proof {
            use_type_invariant(self);
        }
        let mut founders: Vec<UserId> = Vec::new();
        let mut i: usize = 0;
        while i < self.founders.len()
            invariant
                0 <= i <= self.founders@.len(),
                founders@ == self.founders@.take(i as int),
            decreases self.founders@.len() - i,
        {
            founders.push(self.founders[i]);
            assert(founders@ =~= self.founders@.take(i + 1));
            i = i + 1;
        }
        assert(founders@ =~= self.founders@);
        Genesis { founders, params: self.params }
    }
}

/// Encoding of one threshold: numerator, denominator, floor.
pub open spec fn threshold_bytes(t: SeverityThreshold) -> Seq<u8> {
    be_u64(t.ratio.numerator) + be_u64(t.ratio.denominator) + be_u64(t.floor_bps)
}

/// Encoding of the room parameters, field by field.
pub open spec fn params_bytes(p: RoomParams) -> Seq<u8> {
    threshold_bytes(p.remove_message) + threshold_bytes(p.short_restrict) + threshold_bytes(
        p.medium_restrict,
    ) + threshold_bytes(p.long_restrict) + threshold_bytes(p.permanent_restrict) + be_u64(
        p.short_max@,
    ) + be_u64(p.medium_max@) + be_u64(p.long_max@) + be_u64(p.betting_window_ms) + be_u64(
        p.commit_to_reveal_window_ms,
    ) + be_u64(p.opening_window_ms)
}

/// Hashed body of a genesis record.
pub open spec fn genesis_body(g: Genesis) -> Seq<u8> {
    params_bytes(g.param_set()) + be_u32(g.founder_list().len() as u32) + users_bytes(
        g.founder_list(),
    )
}

/// Hash of a genesis record.
pub open spec fn genesis_digest(g: Genesis) -> Seq<u8> {
    sha256_digest(tagged(TAG_GENESIS.spec_bytes(), genesis_body(g)))
}

pub(crate) fn encode_params(e: &mut Encoder, p: &RoomParams)
    ensures
        final(e)@ == old(e)@ + params_bytes(*p),
{
    encode_threshold(e, p.remove_message);
    encode_threshold(e, p.short_restrict);
    encode_threshold(e, p.medium_restrict);
    encode_threshold(e, p.long_restrict);
    encode_threshold(e, p.permanent_restrict);
    e.u64(p.short_max.secs());
    e.u64(p.medium_max.secs());
    e.u64(p.long_max.secs());
    e.u64(p.betting_window_ms);
    e.u64(p.commit_to_reveal_window_ms);
    e.u64(p.opening_window_ms);
    assert(e@ =~= old(e)@ + params_bytes(*p));
}

fn encode_threshold(e: &mut Encoder, t: SeverityThreshold)
    ensures
        final(e)@ == old(e)@ + threshold_bytes(t),
{
    e.u64(t.ratio.numerator);
    e.u64(t.ratio.denominator);
    e.u64(t.floor_bps);
    assert(e@ =~= old(e)@ + threshold_bytes(t));
}

} // verus!
