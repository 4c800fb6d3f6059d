//! The hashed encodings are unambiguous: equal bytes come only from equal
//! values. What binds a digest to its value is then the digest alone.

use vstd::prelude::*;
use vstd::seq_lib::lemma_concat_associative;

use crate::amount::{group_amount, Amount};
use crate::encode::{be_u32, be_u64, lemma_be_u64_injective};
use crate::genesis::{genesis_body, params_bytes, threshold_bytes, Genesis};
use crate::params::{RoomParams, SeverityThreshold};
use crate::proposal::proposal_id_body;
use crate::restriction::Restriction;
use crate::settlement::{
    entry_body, entry_digest, outcome_wire, payouts_bytes, restriction_bytes, users_bytes, Payout,
    SettlementEntry,
};
use crate::types::{action_bytes, group_time, target_bytes, Action, Target, UserId};

verus! {

broadcast use group_amount, group_time;

/// Two concatenations whose first parts have the same length split the same way.
pub proof fn lemma_split(a1: Seq<u8>, r1: Seq<u8>, a2: Seq<u8>, r2: Seq<u8>)
    requires
        a1.len() == a2.len(),
        a1 + r1 == a2 + r2,
    ensures
        a1 == a2,
        r1 == r2,
{
    let n = a1.len() as int;
    assert(a1 =~= (a1 + r1).subrange(0, n));
    assert(a2 =~= (a2 + r2).subrange(0, n));
    assert(r1 =~= (a1 + r1).subrange(n, (a1 + r1).len() as int));
    assert(r2 =~= (a2 + r2).subrange(n, (a2 + r2).len() as int));
}

/// Thirty-two bytes with the same view are the same array.
pub proof fn lemma_bytes32_eq(a: [u8; 32], b: [u8; 32])
    requires
        a@ == b@,
    ensures
        a == b,
{
    assert(a =~= b) by {
        assert forall|i: int| 0 <= i < 32 implies a[i] == b[i] by {
            assert(a@[i] == b@[i]);
        }
    }
}

/// Distinct `u32`s have distinct big-endian bytes.
pub proof fn lemma_be_u32_injective(x: u32, y: u32)
    requires
        be_u32(x) == be_u32(y),
    ensures
        x == y,
{
    assert(be_u32(x)[0] == be_u32(y)[0] && be_u32(x)[1] == be_u32(y)[1] && be_u32(x)[2] == be_u32(y)[2]
        && be_u32(x)[3] == be_u32(y)[3]);
    assert(x == y) by (bit_vector)
        requires
            (x >> 24u32) as u8 == (y >> 24u32) as u8,
            (x >> 16u32) as u8 == (y >> 16u32) as u8,
            (x >> 8u32) as u8 == (y >> 8u32) as u8,
            x as u8 == y as u8,
    ;
}

/// Two `u64` encodings followed by anything split back to the same `u64`s.
pub proof fn lemma_u64_prefix(x: u64, r1: Seq<u8>, y: u64, r2: Seq<u8>)
    requires
        be_u64(x) + r1 == be_u64(y) + r2,
    ensures
        x == y,
        r1 == r2,
{
    lemma_split(be_u64(x), r1, be_u64(y), r2);
    lemma_be_u64_injective(x, y);
}

/// A target encoding followed by anything splits back to the same target.
pub proof fn lemma_target_prefix(t1: Target, r1: Seq<u8>, t2: Target, r2: Seq<u8>)
    requires
        target_bytes(t1) + r1 == target_bytes(t2) + r2,
    ensures
        t1 == t2,
        r1 == r2,
{
    lemma_split(target_bytes(t1), r1, target_bytes(t2), r2);
    let b1 = target_bytes(t1);
    let b2 = target_bytes(t2);
    assert(b1[0] == b2[0]);
    match (t1, t2) {
        (Target::Message(x), Target::Message(y)) => {
            assert(x@ =~= b1.subrange(1, 33));
            assert(y@ =~= b2.subrange(1, 33));
            lemma_bytes32_eq(x.0, y.0);
        },
        (Target::User(x), Target::User(y)) => {
            assert(x@ =~= b1.subrange(1, 33));
            assert(y@ =~= b2.subrange(1, 33));
            lemma_bytes32_eq(x.0, y.0);
        },
        _ => {},
    }
}

/// An action encoding followed by anything splits back to the same action:
/// its first byte says how long it is.
pub proof fn lemma_action_prefix(a1: Action, r1: Seq<u8>, a2: Action, r2: Seq<u8>)
    requires
        action_bytes(a1) + r1 == action_bytes(a2) + r2,
    ensures
        a1 == a2,
        r1 == r2,
{
    let b1 = action_bytes(a1);
    let b2 = action_bytes(a2);
    assert((b1 + r1)[0] == b1[0] && (b2 + r2)[0] == b2[0]);
    match (a1, a2) {
        (Action::RemoveMessage, Action::RemoveMessage) => {
            lemma_split(b1, r1, b2, r2);
        },
        (Action::Restrict { duration: d1 }, Action::Restrict { duration: d2 }) => {
            lemma_split(b1, r1, b2, r2);
            assert(be_u64(d1@) =~= b1.subrange(1, 9));
            assert(be_u64(d2@) =~= b2.subrange(1, 9));
            lemma_be_u64_injective(d1@, d2@);
            assert(crate::types::dur(d1@) == d1 && crate::types::dur(d2@) == d2);
        },
        (Action::RemoveMessage, Action::Restrict { duration: d2 }) => {
            assert(b1[0] == 0u8);
            assert(b2[0] == 1u8);
        },
        (Action::Restrict { duration: d1 }, Action::RemoveMessage) => {
            assert(b1[0] == 1u8);
            assert(b2[0] == 0u8);
        },
    }
}

/// A list of `(user, amount)` pairs of known length is recovered from its
/// encoding followed by anything.
pub proof fn lemma_payouts_prefix(s1: Seq<Payout>, r1: Seq<u8>, s2: Seq<Payout>, r2: Seq<u8>)
    requires
        s1.len() == s2.len(),
        payouts_bytes(s1) + r1 == payouts_bytes(s2) + r2,
    ensures
        s1 == s2,
        r1 == r2,
    decreases s1.len(),
{
    lemma_payouts_len(s1);
    lemma_payouts_len(s2);
    lemma_split(payouts_bytes(s1), r1, payouts_bytes(s2), r2);
    if s1.len() > 0 {
        let x1 = s1.last();
        let x2 = s2.last();
        let t1 = x1.user@ + be_u64(x1.amount@);
        let t2 = x2.user@ + be_u64(x2.amount@);
        assert(payouts_bytes(s1) =~= payouts_bytes(s1.drop_last()) + t1);
        assert(payouts_bytes(s2) =~= payouts_bytes(s2.drop_last()) + t2);
        lemma_payouts_prefix(s1.drop_last(), t1, s2.drop_last(), t2);
        lemma_split(x1.user@, be_u64(x1.amount@), x2.user@, be_u64(x2.amount@));
        lemma_bytes32_eq(x1.user.0, x2.user.0);
        lemma_be_u64_injective(x1.amount@, x2.amount@);
        assert(x1.amount == x2.amount) by {
            assert(crate::amount::amt(x1.amount@) == x1.amount);
            assert(crate::amount::amt(x2.amount@) == x2.amount);
        }
        assert(s1 =~= s2) by {
            assert(s1 =~= s1.drop_last().push(x1));
            assert(s2 =~= s2.drop_last().push(x2));
        }
    }
}

proof fn lemma_payouts_len(s: Seq<Payout>)
    ensures
        payouts_bytes(s).len() == 40 * s.len(),
    decreases s.len(),
{
    if s.len() > 0 {
        lemma_payouts_len(s.drop_last());
    }
}

proof fn lemma_users_len(s: Seq<UserId>)
    ensures
        users_bytes(s).len() == 32 * s.len(),
    decreases s.len(),
{
    if s.len() > 0 {
        lemma_users_len(s.drop_last());
    }
}

/// A list of users of known length is recovered from its encoding followed
/// by anything.
pub proof fn lemma_users_prefix(s1: Seq<UserId>, r1: Seq<u8>, s2: Seq<UserId>, r2: Seq<u8>)
    requires
        s1.len() == s2.len(),
        users_bytes(s1) + r1 == users_bytes(s2) + r2,
    ensures
        s1 == s2,
        r1 == r2,
    decreases s1.len(),
{
    lemma_users_len(s1);
    lemma_users_len(s2);
    lemma_split(users_bytes(s1), r1, users_bytes(s2), r2);
    if s1.len() > 0 {
        let x1 = s1.last();
        let x2 = s2.last();
        assert(users_bytes(s1) =~= users_bytes(s1.drop_last()) + x1@);
        assert(users_bytes(s2) =~= users_bytes(s2.drop_last()) + x2@);
        lemma_users_prefix(s1.drop_last(), x1@, s2.drop_last(), x2@);
        lemma_bytes32_eq(x1.0, x2.0);
        assert(s1 =~= s2) by {
            assert(s1 =~= s1.drop_last().push(x1));
            assert(s2 =~= s2.drop_last().push(x2));
        }
    }
}

/// A length-prefixed list is recovered, with its length, from its encoding
/// followed by anything, while the lengths fit in a `u32`.
pub proof fn lemma_counted_payouts_prefix(s1: Seq<Payout>, r1: Seq<u8>, s2: Seq<Payout>, r2: Seq<u8>)
    requires
        s1.len() <= u32::MAX,
        s2.len() <= u32::MAX,
        be_u32(s1.len() as u32) + (payouts_bytes(s1) + r1) == be_u32(s2.len() as u32) + (payouts_bytes(s2) + r2),
    ensures
        s1 == s2,
        r1 == r2,
{
    lemma_split(be_u32(s1.len() as u32), payouts_bytes(s1) + r1, be_u32(s2.len() as u32), payouts_bytes(s2) + r2);
    lemma_be_u32_injective(s1.len() as u32, s2.len() as u32);
    lemma_payouts_prefix(s1, r1, s2, r2);
}

/// As above, for a length-prefixed list of users.
pub proof fn lemma_counted_users_prefix(s1: Seq<UserId>, r1: Seq<u8>, s2: Seq<UserId>, r2: Seq<u8>)
    requires
        s1.len() <= u32::MAX,
        s2.len() <= u32::MAX,
        be_u32(s1.len() as u32) + (users_bytes(s1) + r1) == be_u32(s2.len() as u32) + (users_bytes(s2) + r2),
    ensures
        s1 == s2,
        r1 == r2,
{
    lemma_split(be_u32(s1.len() as u32), users_bytes(s1) + r1, be_u32(s2.len() as u32), users_bytes(s2) + r2);
    lemma_be_u32_injective(s1.len() as u32, s2.len() as u32);
    lemma_users_prefix(s1, r1, s2, r2);
}

/// The optional restriction is recovered from its encoding.
pub proof fn lemma_restriction_bytes_injective(x1: Option<Restriction>, x2: Option<Restriction>)
    requires
        restriction_bytes(x1) == restriction_bytes(x2),
    ensures
        x1 == x2,
{
    let b1 = restriction_bytes(x1);
    let b2 = restriction_bytes(x2);
    assert(b1[0] == b2[0]);
    match (x1, x2) {
        (Some(a), Some(b)) => {
            assert(b1 =~= seq![1u8] + (a.user@ + (be_u64(a.duration@) + be_u64(a.start@))));
            assert(b2 =~= seq![1u8] + (b.user@ + (be_u64(b.duration@) + be_u64(b.start@))));
            lemma_split(seq![1u8], a.user@ + (be_u64(a.duration@) + be_u64(a.start@)), seq![1u8], b.user@ + (be_u64(b.duration@) + be_u64(b.start@)));
            lemma_split(a.user@, be_u64(a.duration@) + be_u64(a.start@), b.user@, be_u64(b.duration@) + be_u64(b.start@));
            lemma_bytes32_eq(a.user.0, b.user.0);
            lemma_u64_prefix(a.duration@, be_u64(a.start@), b.duration@, be_u64(b.start@));
            lemma_be_u64_injective(a.start@, b.start@);
            assert(crate::types::dur(a.duration@) == a.duration && crate::types::dur(b.duration@) == b.duration);
            assert(crate::types::ts(a.start@) == a.start && crate::types::ts(b.start@) == b.start);
        },
        (None, Some(b)) => {
            assert(b2[0] == 1u8);
        },
        (Some(a), None) => {
            assert(b1[0] == 1u8);
        },
        (None, None) => {},
    }
}

/// `a` and `b` agree on every field an entry's hash covers: all but `this_hash`.
pub open spec fn same_body(a: SettlementEntry, b: SettlementEntry) -> bool {
    &&& a.prev_hash == b.prev_hash
    &&& a.proposal_id == b.proposal_id
    &&& a.target == b.target
    &&& a.action == b.action
    &&& a.outcome == b.outcome
    &&& a.payouts@ == b.payouts@
    &&& a.forfeitures@ == b.forfeitures@
    &&& a.free_mints@ == b.free_mints@
    &&& a.burned == b.burned
    &&& a.executed_restriction == b.executed_restriction
}

#[verifier::opaque]
spec fn tail_burn(e: SettlementEntry) -> Seq<u8> {
    be_u64(e.burned@) + restriction_bytes(e.executed_restriction)
}

#[verifier::opaque]
spec fn tail_mints(e: SettlementEntry) -> Seq<u8> {
    be_u32(e.free_mints@.len() as u32) + (users_bytes(e.free_mints@) + tail_burn(e))
}

#[verifier::opaque]
spec fn tail_forf(e: SettlementEntry) -> Seq<u8> {
    be_u32(e.forfeitures@.len() as u32) + (payouts_bytes(e.forfeitures@) + tail_mints(e))
}

#[verifier::opaque]
spec fn tail_pay(e: SettlementEntry) -> Seq<u8> {
    be_u32(e.payouts@.len() as u32) + (payouts_bytes(e.payouts@) + tail_forf(e))
}

#[verifier::opaque]
spec fn tail_out(e: SettlementEntry) -> Seq<u8> {
    seq![outcome_wire(e.outcome)] + tail_pay(e)
}

#[verifier::opaque]
spec fn tail_act(e: SettlementEntry) -> Seq<u8> {
    action_bytes(e.action) + tail_out(e)
}

#[verifier::opaque]
spec fn tail_tgt(e: SettlementEntry) -> Seq<u8> {
    target_bytes(e.target) + tail_act(e)
}

#[verifier::opaque]
spec fn tail_pid(e: SettlementEntry) -> Seq<u8> {
    e.proposal_id@ + tail_tgt(e)
}

/// Lists short enough to count in a `u32`.
pub open spec fn lists_countable(e: SettlementEntry) -> bool {
    &&& e.payouts@.len() <= u32::MAX
    &&& e.forfeitures@.len() <= u32::MAX
    &&& e.free_mints@.len() <= u32::MAX
}

proof fn lemma_body_grouped(e: SettlementEntry)
    ensures
        entry_body(e) == e.prev_hash@ + tail_pid(e),
{
    let x0 = e.prev_hash@;
    let x1 = e.proposal_id@;
    let x2 = target_bytes(e.target);
    let x3 = action_bytes(e.action);
    let x4 = seq![outcome_wire(e.outcome)];
    let x5 = be_u32(e.payouts@.len() as u32);
    let x6 = payouts_bytes(e.payouts@);
    let x7 = be_u32(e.forfeitures@.len() as u32);
    let x8 = payouts_bytes(e.forfeitures@);
    let x9 = be_u32(e.free_mints@.len() as u32);
    let x10 = users_bytes(e.free_mints@);
    let x11 = be_u64(e.burned@);
    let x12 = restriction_bytes(e.executed_restriction);
    let r11 = x11 + x12;
    let r10 = x10 + r11;
    let r9 = x9 + r10;
    let r8 = x8 + r9;
    let r7 = x7 + r8;
    let r6 = x6 + r7;
    let r5 = x5 + r6;
    let r4 = x4 + r5;
    let r3 = x3 + r4;
    let r2 = x2 + r3;
    let r1 = x1 + r2;
    let l1 = x0 + x1;
    let l2 = l1 + x2;
    let l3 = l2 + x3;
    let l4 = l3 + x4;
    let l5 = l4 + x5;
    let l6 = l5 + x6;
    let l7 = l6 + x7;
    let l8 = l7 + x8;
    let l9 = l8 + x9;
    let l10 = l9 + x10;
    assert(entry_body(e) == l10 + x11 + x12);
    lemma_concat_associative(l10, x11, x12);
    lemma_concat_associative(l9, x10, r11);
    lemma_concat_associative(l8, x9, r10);
    lemma_concat_associative(l7, x8, r9);
    lemma_concat_associative(l6, x7, r8);
    lemma_concat_associative(l5, x6, r7);
    lemma_concat_associative(l4, x5, r6);
    lemma_concat_associative(l3, x4, r5);
    lemma_concat_associative(l2, x3, r4);
    lemma_concat_associative(l1, x2, r3);
    lemma_concat_associative(x0, x1, r2);
    reveal(tail_burn);
    reveal(tail_mints);
    reveal(tail_forf);
    reveal(tail_pay);
    reveal(tail_out);
    reveal(tail_act);
    reveal(tail_tgt);
    reveal(tail_pid);
}

proof fn lemma_tail_burn(e1: SettlementEntry, e2: SettlementEntry)
    requires
        tail_burn(e1) == tail_burn(e2),
    ensures
        e1.burned == e2.burned,
        e1.executed_restriction == e2.executed_restriction,
{
    reveal(tail_burn);
    lemma_u64_prefix(e1.burned@, restriction_bytes(e1.executed_restriction), e2.burned@, restriction_bytes(e2.executed_restriction));
    assert(crate::amount::amt(e1.burned@) == e1.burned && crate::amount::amt(e2.burned@) == e2.burned);
    lemma_restriction_bytes_injective(e1.executed_restriction, e2.executed_restriction);
}

proof fn lemma_tail_mints(e1: SettlementEntry, e2: SettlementEntry)
    requires
        lists_countable(e1),
        lists_countable(e2),
        tail_mints(e1) == tail_mints(e2),
    ensures
        e1.free_mints@ == e2.free_mints@,
        tail_burn(e1) == tail_burn(e2),
{
    reveal(tail_mints);
    lemma_counted_users_prefix(e1.free_mints@, tail_burn(e1), e2.free_mints@, tail_burn(e2));
}

proof fn lemma_tail_forf(e1: SettlementEntry, e2: SettlementEntry)
    requires
        lists_countable(e1),
        lists_countable(e2),
        tail_forf(e1) == tail_forf(e2),
    ensures
        e1.forfeitures@ == e2.forfeitures@,
        tail_mints(e1) == tail_mints(e2),
{
    reveal(tail_forf);
    lemma_counted_payouts_prefix(e1.forfeitures@, tail_mints(e1), e2.forfeitures@, tail_mints(e2));
}

proof fn lemma_tail_pay(e1: SettlementEntry, e2: SettlementEntry)
    requires
        lists_countable(e1),
        lists_countable(e2),
        tail_pay(e1) == tail_pay(e2),
    ensures
        e1.payouts@ == e2.payouts@,
        tail_forf(e1) == tail_forf(e2),
{
    reveal(tail_pay);
    lemma_counted_payouts_prefix(e1.payouts@, tail_forf(e1), e2.payouts@, tail_forf(e2));
}

proof fn lemma_tail_out(e1: SettlementEntry, e2: SettlementEntry)
    requires
        tail_out(e1) == tail_out(e2),
    ensures
        e1.outcome == e2.outcome,
        tail_pay(e1) == tail_pay(e2),
{
    reveal(tail_out);
    lemma_split(seq![outcome_wire(e1.outcome)], tail_pay(e1), seq![outcome_wire(e2.outcome)], tail_pay(e2));
    assert(seq![outcome_wire(e1.outcome)][0] == seq![outcome_wire(e2.outcome)][0]);
    match (e1.outcome, e2.outcome) {
        (crate::settlement::OutcomeKind::NoDefault, crate::settlement::OutcomeKind::NoDefault) => {},
        (crate::settlement::OutcomeKind::YesExecuted, crate::settlement::OutcomeKind::YesExecuted) => {},
        _ => {},
    }
}

proof fn lemma_tail_act(e1: SettlementEntry, e2: SettlementEntry)
    requires
        tail_act(e1) == tail_act(e2),
    ensures
        e1.action == e2.action,
        tail_out(e1) == tail_out(e2),
{
    reveal(tail_act);
    lemma_action_prefix(e1.action, tail_out(e1), e2.action, tail_out(e2));
}

proof fn lemma_tail_tgt(e1: SettlementEntry, e2: SettlementEntry)
    requires
        tail_tgt(e1) == tail_tgt(e2),
    ensures
        e1.target == e2.target,
        tail_act(e1) == tail_act(e2),
{
    reveal(tail_tgt);
    lemma_target_prefix(e1.target, tail_act(e1), e2.target, tail_act(e2));
}

proof fn lemma_tail_pid(e1: SettlementEntry, e2: SettlementEntry)
    requires
        tail_pid(e1) == tail_pid(e2),
    ensures
        e1.proposal_id == e2.proposal_id,
        tail_tgt(e1) == tail_tgt(e2),
{
    reveal(tail_pid);
    lemma_split(e1.proposal_id@, tail_tgt(e1), e2.proposal_id@, tail_tgt(e2));
    lemma_bytes32_eq(e1.proposal_id.0, e2.proposal_id.0);
}

/// The settlement hash covers every field but `this_hash`: entries that agree
/// on those fields have the same digest, and entries (with lists short enough
/// to count in a `u32`) whose hashed bodies are equal agree on those fields.
/// Telling entries apart by digest then rests on SHA-256 alone.
pub proof fn law_entry_hash_covers_body(e1: SettlementEntry, e2: SettlementEntry)
    requires
        lists_countable(e1),
        lists_countable(e2),
    ensures
        same_body(e1, e2) ==> entry_digest(e1) == entry_digest(e2),
        entry_body(e1) == entry_body(e2) ==> same_body(e1, e2),
{
    if same_body(e1, e2) {
        assert(entry_body(e1) =~= entry_body(e2));
    }
    if entry_body(e1) == entry_body(e2) {
        lemma_body_grouped(e1);
        lemma_body_grouped(e2);
        lemma_split(e1.prev_hash@, tail_pid(e1), e2.prev_hash@, tail_pid(e2));
        lemma_bytes32_eq(e1.prev_hash.0, e2.prev_hash.0);
        lemma_tail_pid(e1, e2);
        lemma_tail_tgt(e1, e2);
        lemma_tail_act(e1, e2);
        lemma_tail_out(e1, e2);
        lemma_tail_pay(e1, e2);
        lemma_tail_forf(e1, e2);
        lemma_tail_mints(e1, e2);
        lemma_tail_burn(e1, e2);
    }
}

/// Two concatenations whose last parts have the same length split the same way.
pub proof fn lemma_split_last(a1: Seq<u8>, b1: Seq<u8>, a2: Seq<u8>, b2: Seq<u8>)
    requires
        b1.len() == b2.len(),
        a1 + b1 == a2 + b2,
    ensures
        a1 == a2,
        b1 == b2,
{
    assert((a1 + b1).len() == (a2 + b2).len());
    assert(a1.len() == (a1 + b1).len() - b1.len());
    assert(a2.len() == (a2 + b2).len() - b2.len());
    lemma_split(a1, b1, a2, b2);
}

proof fn lemma_threshold_bytes(t1: SeverityThreshold, t2: SeverityThreshold)
    requires
        threshold_bytes(t1) == threshold_bytes(t2),
    ensures
        t1 == t2,
{
    let a1 = be_u64(t1.ratio.numerator) + be_u64(t1.ratio.denominator);
    let a2 = be_u64(t2.ratio.numerator) + be_u64(t2.ratio.denominator);
    lemma_split_last(a1, be_u64(t1.floor_bps), a2, be_u64(t2.floor_bps));
    lemma_split_last(be_u64(t1.ratio.numerator), be_u64(t1.ratio.denominator), be_u64(t2.ratio.numerator), be_u64(t2.ratio.denominator));
    lemma_be_u64_injective(t1.floor_bps, t2.floor_bps);
    lemma_be_u64_injective(t1.ratio.numerator, t2.ratio.numerator);
    lemma_be_u64_injective(t1.ratio.denominator, t2.ratio.denominator);
}

/// A trailing `u64` encoding splits off.
proof fn lemma_peel_u64(a1: Seq<u8>, x1: u64, a2: Seq<u8>, x2: u64)
    requires
        a1 + be_u64(x1) == a2 + be_u64(x2),
    ensures
        a1 == a2,
        x1 == x2,
{
    lemma_split_last(a1, be_u64(x1), a2, be_u64(x2));
    lemma_be_u64_injective(x1, x2);
}

/// A trailing threshold encoding splits off.
proof fn lemma_peel_threshold(a1: Seq<u8>, x1: SeverityThreshold, a2: Seq<u8>, x2: SeverityThreshold)
    requires
        a1 + threshold_bytes(x1) == a2 + threshold_bytes(x2),
    ensures
        a1 == a2,
        x1 == x2,
{
    lemma_split_last(a1, threshold_bytes(x1), a2, threshold_bytes(x2));
    lemma_threshold_bytes(x1, x2);
}

/// The five thresholds at the head of the parameters.
spec fn thresholds_bytes(p: RoomParams) -> Seq<u8> {
    threshold_bytes(p.remove_message) + threshold_bytes(p.short_restrict) + threshold_bytes(p.medium_restrict)
        + threshold_bytes(p.long_restrict) + threshold_bytes(p.permanent_restrict)
}

#[verifier::spinoff_prover]
proof fn lemma_thresholds_bytes(p1: RoomParams, p2: RoomParams)
    requires
        thresholds_bytes(p1) == thresholds_bytes(p2),
    ensures
        p1.remove_message == p2.remove_message,
        p1.short_restrict == p2.short_restrict,
        p1.medium_restrict == p2.medium_restrict,
        p1.long_restrict == p2.long_restrict,
        p1.permanent_restrict == p2.permanent_restrict,
{
    let a1 = threshold_bytes(p1.remove_message);
    let a2 = threshold_bytes(p2.remove_message);
    let b1 = a1 + threshold_bytes(p1.short_restrict);
    let b2 = a2 + threshold_bytes(p2.short_restrict);
    let c1 = b1 + threshold_bytes(p1.medium_restrict);
    let c2 = b2 + threshold_bytes(p2.medium_restrict);
    let d1 = c1 + threshold_bytes(p1.long_restrict);
    let d2 = c2 + threshold_bytes(p2.long_restrict);
    lemma_peel_threshold(d1, p1.permanent_restrict, d2, p2.permanent_restrict);
    lemma_peel_threshold(c1, p1.long_restrict, c2, p2.long_restrict);
    lemma_peel_threshold(b1, p1.medium_restrict, b2, p2.medium_restrict);
    lemma_peel_threshold(a1, p1.short_restrict, a2, p2.short_restrict);
    lemma_threshold_bytes(p1.remove_message, p2.remove_message);
}

/// The room parameters are recovered from their encoding.
#[verifier::spinoff_prover]
pub proof fn lemma_params_bytes_injective(p1: RoomParams, p2: RoomParams)
    requires
        params_bytes(p1) == params_bytes(p2),
    ensures
        p1 == p2,
{
    let t1 = thresholds_bytes(p1);
    let t2 = thresholds_bytes(p2);
    let c1 = t1 + be_u64(p1.short_max@);
    let c2 = t2 + be_u64(p2.short_max@);
    let d1 = c1 + be_u64(p1.medium_max@);
    let d2 = c2 + be_u64(p2.medium_max@);
    let e1 = d1 + be_u64(p1.long_max@);
    let e2 = d2 + be_u64(p2.long_max@);
    let f1 = e1 + be_u64(p1.betting_window_ms);
    let f2 = e2 + be_u64(p2.betting_window_ms);
    let g1 = f1 + be_u64(p1.commit_to_reveal_window_ms);
    let g2 = f2 + be_u64(p2.commit_to_reveal_window_ms);
    assert(params_bytes(p1) == g1 + be_u64(p1.opening_window_ms));
    assert(params_bytes(p2) == g2 + be_u64(p2.opening_window_ms));
    lemma_peel_u64(g1, p1.opening_window_ms, g2, p2.opening_window_ms);
    lemma_peel_u64(f1, p1.commit_to_reveal_window_ms, f2, p2.commit_to_reveal_window_ms);
    lemma_peel_u64(e1, p1.betting_window_ms, e2, p2.betting_window_ms);
    lemma_peel_u64(d1, p1.long_max@, d2, p2.long_max@);
    lemma_peel_u64(c1, p1.medium_max@, c2, p2.medium_max@);
    lemma_peel_u64(t1, p1.short_max@, t2, p2.short_max@);
    lemma_thresholds_bytes(p1, p2);
    assert(crate::types::dur(p1.long_max@) == p1.long_max && crate::types::dur(p2.long_max@) == p2.long_max);
    assert(crate::types::dur(p1.medium_max@) == p1.medium_max && crate::types::dur(p2.medium_max@) == p2.medium_max);
    assert(crate::types::dur(p1.short_max@) == p1.short_max && crate::types::dur(p2.short_max@) == p2.short_max);
}

proof fn lemma_params_len(p: RoomParams)
    ensures
        params_bytes(p).len() == 168,
{
}

proof fn lemma_genesis_split(g1: Genesis, g2: Genesis)
    requires
        genesis_body(g1) == genesis_body(g2),
    ensures
        params_bytes(g1.param_set()) == params_bytes(g2.param_set()),
        be_u32(g1.founder_list().len() as u32) + (users_bytes(g1.founder_list()) + Seq::<u8>::empty()) == be_u32(
            g2.founder_list().len() as u32,
        ) + (users_bytes(g2.founder_list()) + Seq::<u8>::empty()),
{
    let p1 = params_bytes(g1.param_set());
    let p2 = params_bytes(g2.param_set());
    let n1 = be_u32(g1.founder_list().len() as u32);
    let n2 = be_u32(g2.founder_list().len() as u32);
    let u1 = users_bytes(g1.founder_list());
    let u2 = users_bytes(g2.founder_list());
    lemma_params_len(g1.param_set());
    lemma_params_len(g2.param_set());
    lemma_concat_associative(p1, n1, u1);
    lemma_concat_associative(p2, n2, u2);
    lemma_split(p1, n1 + u1, p2, n2 + u2);
    assert(u1 + Seq::<u8>::empty() =~= u1);
    assert(u2 + Seq::<u8>::empty() =~= u2);
}

/// A genesis record's hashed body determines its parameters and its ordered
/// founder list (while the list can be counted in a `u32`).
#[verifier::spinoff_prover]
pub proof fn law_genesis_body_unambiguous(g1: Genesis, g2: Genesis)
    requires
        g1.founder_list().len() <= u32::MAX,
        g2.founder_list().len() <= u32::MAX,
        genesis_body(g1) == genesis_body(g2),
    ensures
        g1.param_set() == g2.param_set(),
        g1.founder_list() == g2.founder_list(),
{
    lemma_genesis_split(g1, g2);
    lemma_params_bytes_injective(g1.param_set(), g2.param_set());
    lemma_counted_users_prefix(g1.founder_list(), Seq::<u8>::empty(), g2.founder_list(), Seq::<u8>::empty());
}

/// A proposal id's hashed body determines proposer, target, action and the
/// first commitment hash.
pub proof fn law_proposal_id_body_unambiguous(
    u1: UserId,
    t1: Target,
    a1: Action,
    f1: Seq<u8>,
    u2: UserId,
    t2: Target,
    a2: Action,
    f2: Seq<u8>,
)
    requires
        proposal_id_body(u1, t1, a1, f1) == proposal_id_body(u2, t2, a2, f2),
    ensures
        u1 == u2,
        t1 == t2,
        a1 == a2,
        f1 == f2,
{
    lemma_concat_associative(u1@ + target_bytes(t1), action_bytes(a1), f1);
    lemma_concat_associative(u1@, target_bytes(t1), action_bytes(a1) + f1);
    lemma_concat_associative(u2@ + target_bytes(t2), action_bytes(a2), f2);
    lemma_concat_associative(u2@, target_bytes(t2), action_bytes(a2) + f2);
    lemma_split(u1@, target_bytes(t1) + (action_bytes(a1) + f1), u2@, target_bytes(t2) + (action_bytes(a2) + f2));
    lemma_bytes32_eq(u1.0, u2.0);
    lemma_target_prefix(t1, action_bytes(a1) + f1, t2, action_bytes(a2) + f2);
    lemma_action_prefix(a1, f1, a2, f2);
}

} // verus!
