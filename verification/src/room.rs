//! Deterministic room state machine.

use vstd::prelude::*;

use crate::amount::{group_amount, sat_add, sat_sub, Amount, TOKEN};
use crate::order::sort_by_key;
use crate::params::threshold_spec;
use crate::payout::{payout_sum, split_payouts, split_pot};
use crate::threshold::{decide, decide_spec, weight, weight_spec};
use crate::balances::{genesis_ledger, get0, replay, replay_from, settlement_effect, Balances};
use crate::escrow::{
    amount_for, escrow_for, free_in, lemma_free_in_fresh, lemma_free_in_same_kind, lemma_amount_for_bounds, lemma_forfeit_all_succeeds, lemma_mint_all_succeeds,
    lemma_payout_all_succeeds, lemma_payout_sum_sort, lemma_sort_len, lemma_without, without, lemma_amount_for_concat,
    lemma_amount_for_sort, lemma_forfeit_all_debits, lemma_forfeits_within_locks,
    lemma_locked_in_fresh, lemma_locked_in_same_kind, lemma_locked_in_single, lemma_locks_insert,
    lemma_locks_remove, lemma_locks_tick, lemma_locks_total_exact, lemma_locks_update, lemma_payout_all_credits,
    locks_sum,
};
use crate::command::{Command, Outcome};
use crate::commitment::{FreeCommitment, Opening, PaidCommitment, RevealCommit};
use crate::error::Error;
use crate::genesis::{genesis_digest, Genesis};
use crate::idmap::{
    entries_wf, has_key, index_of_key, insert_position, insert_spec, remove_key_spec, lemma_index_of_key,
    lemma_insert_position_range, lemma_insert_spec_keys, lemma_remove_key_spec_keys, lemma_update_value_keeps_wf,
    strictly_sorted, value_at_key, IdMap,
};
use crate::order::Keyed;
use crate::params::RoomParams;
use crate::proposal::{
    UserCommitment, fresh_commitment, locked_in, locked_spec, phase_at_spec, proposal_id_digest, total_locked_spec,
    CommitmentKind,
    Proposal, ProposalView,
};
use crate::restriction::{
    applies, effective_restriction, has_applicable, is_effective, supersedes, takes_effect, Restriction,
};
use crate::settlement::{
    chain_check, hash_matches, same_entry, verify_chain, OutcomeKind, Payout, SettlementEntry,
};
use crate::types::{
    group_time, same_target, valid_pair, Action, Direction, DurationSecs, Phase, ProposalId, Target, Timestamp,
    UserId,
};

verus! {

broadcast use group_amount, group_time;

/// Open proposals keyed by id.
pub type Proposals = Seq<(ProposalId, Proposal)>;

/// Sum of the stakes the user with key `k` has locked across `props`, capped
/// at `u64::MAX` at every step.
pub open spec fn locks_total(props: Proposals, k: Seq<u8>) -> u64
    decreases props.len(),
{
    if props.len() == 0 {
        0
    } else {
        sat_add(locks_total(props.drop_last(), k), locked_in(props.last().1.commitments@, k))
    }
}

/// The user with key `k` holds a free commitment on some open proposal.
pub open spec fn has_free_commit(props: Proposals, k: Seq<u8>) -> bool {
    exists|i: int|
        0 <= i < props.len() && has_key(#[trigger] props[i].1.commitments@, k) && value_at_key(
            props[i].1.commitments@,
            k,
        ).kind is Free
}

/// No user holds free commitments on two open proposals.
pub open spec fn free_once(props: Proposals) -> bool {
    forall|i: int, j: int, k: Seq<u8>|
        0 <= i < j < props.len() ==> !(#[trigger] free_in(props[i].1.commitments@, k) && #[trigger] free_in(
            props[j].1.commitments@,
            k,
        ))
}

/// Every open proposal's action is valid for its target.
pub open spec fn actions_valid(props: Proposals) -> bool {
    forall|i: int| 0 <= i < props.len() ==> valid_pair((#[trigger] props[i]).1.action, props[i].1.target)
}

/// Every open proposal has a well-formed commitment map.
pub open spec fn proposals_wf(props: Proposals) -> bool {
    entries_wf(props) && forall|i: int| 0 <= i < props.len() ==> (#[trigger] props[i]).1.wf()
}

/// The snapshot `v` shows proposal `p`.
pub open spec fn shows(v: ProposalView, p: Proposal) -> bool {
    &&& v.id == p.id
    &&& v.proposer == p.proposer
    &&& v.target == p.target
    &&& v.action == p.action
    &&& v.phase == p.phase
    &&& v.opened_at == p.opened_at
    &&& v.betting_deadline == p.betting_deadline
    &&& v.reveal_deadline == p.reveal_deadline
    &&& v.opening_deadline == p.opening_deadline
    &&& v.commitment_count == p.commitments@.len()
    &&& v.total_locked@ == total_locked_spec(p.commitments@)
}

/// `p` with its phase set from the clock at `now`.
pub open spec fn advanced(p: Proposal, now: u64) -> Proposal {
    Proposal {
        phase: phase_at_spec(now, p.betting_deadline@, p.reveal_deadline@, p.opening_deadline@),
        ..p
    }
}

/// All open proposals advanced to `now`, in the same order.
pub open spec fn tick_spec(props: Proposals, now: u64) -> Proposals {
    Seq::new(props.len(), |i: int| (props[i].0, advanced(props[i].1, now)))
}

/// One `PhaseChanged` per proposal whose phase moves at `now`, in key order.
pub open spec fn tick_outcomes(props: Proposals, now: u64) -> Seq<Outcome>
    decreases props.len(),
{
    if props.len() == 0 {
        Seq::empty()
    } else {
        let prev = tick_outcomes(props.drop_last(), now);
        let p = props.last().1;
        let q = advanced(p, now);
        if q.phase != p.phase {
            prev.push(Outcome::PhaseChanged { proposal: p.id, phase: q.phase })
        } else {
            prev
        }
    }
}

/// Pairs `(target, action)` are listed at most once.
pub open spec fn pairs_unique(s: Seq<((Target, Action), ProposalId)>) -> bool {
    forall|i: int, j: int|
        0 <= i < j < s.len() ==> !(same_target((#[trigger] s[i]).0.0, (#[trigger] s[j]).0.0)
            && s[i].0.1 == s[j].0.1)
}

/// Some entry of `s` is for `(t, a)`.
pub open spec fn pair_listed(s: Seq<((Target, Action), ProposalId)>, t: Target, a: Action) -> bool {
    exists|i: int| 0 <= i < s.len() && same_target((#[trigger] s[i]).0.0, t) && s[i].0.1 == a
}

/// Everything but the open proposals is the same in `base` and `new`.
pub open spec fn only_props_changed(base: Room, new: Room) -> bool {
    &&& new.genesis_rec() == base.genesis_rec()
    &&& new.log() == base.log()
    &&& new.cache() == base.cache()
    &&& new.proposer_slots() == base.proposer_slots()
    &&& new.pair_slots() == base.pair_slots()
}

/// Available balance of key `k` with open proposals `props`.
pub open spec fn available_with(base: Room, props: Proposals, k: Seq<u8>) -> u64 {
    sat_sub(base.balance_of(k), locks_total(props, k))
}

/// `props` with the proposal under key `k` replaced by `q`.
pub open spec fn replaced_at(props: Proposals, k: Seq<u8>, q: Proposal) -> Proposals {
    props.update(index_of_key(props, k), (props[index_of_key(props, k)].0, q))
}

/// `p` is the proposal opened by `proposer` on `(target, action)` with first
/// commitment `commit` at `now`.
pub open spec fn fresh_proposal(
    p: Proposal,
    proposer: UserId,
    target: Target,
    action: Action,
    commit: PaidCommitment,
    now: Timestamp,
    params: RoomParams,
) -> bool {
    &&& p.wf()
    &&& p.id@ == proposal_id_digest(proposer, target, action, commit.hash@)
    &&& p.proposer == proposer
    &&& p.target == target
    &&& p.action == action
    &&& p.opened_at == now
    &&& p.betting_deadline@ == sat_add(now@, params.betting_window_ms)
    &&& p.reveal_deadline@ == sat_add(p.betting_deadline@, params.commit_to_reveal_window_ms)
    &&& p.opening_deadline@ == sat_add(p.reveal_deadline@, params.opening_window_ms)
    &&& p.phase == Phase::Betting
    &&& p.commitments@ == seq![
        (proposer, fresh_commitment(commit.hash, CommitmentKind::Paid { amount: commit.amount })),
    ]
}

/// Rejection, if any, of opening a proposal.
pub open spec fn open_proposal_check(
    base: Room,
    props: Proposals,
    proposer: UserId,
    target: Target,
    action: Action,
    commit: PaidCommitment,
) -> Result<(), Error> {
    if !valid_pair(action, target) {
        Err(Error::InvalidActionForTarget)
    } else if commit.amount@ == 0 {
        Err(Error::ZeroStake)
    } else if base.balance_of(proposer@) == 0 {
        Err(Error::ZeroBalanceCannotOpen)
    } else if has_key(base.proposer_slots(), proposer@) {
        Err(Error::ProposerHasOpenProposal)
    } else if pair_listed(base.pair_slots(), target, action) {
        Err(Error::DuplicateTargetAction)
    } else if available_with(base, props, proposer@) < commit.amount@ {
        Err(Error::InsufficientBalance)
    } else {
        Ok(())
    }
}

/// Effect of `OpenProposal` on `base` whose open proposals are `props`.
pub open spec fn open_proposal_post(
    base: Room,
    props: Proposals,
    proposer: UserId,
    target: Target,
    action: Action,
    commit: PaidCommitment,
    now: Timestamp,
    new: Room,
    r: Result<Outcome, Error>,
) -> bool {
    let check = open_proposal_check(base, props, proposer, target, action, commit);
    &&& (check matches Err(e) ==> r == Err::<Outcome, Error>(e) && new.props() == props
        && only_props_changed(base, new))
    &&& (check is Ok ==> exists|id: ProposalId, p: Proposal|
        {
            &&& r == Ok::<Outcome, Error>(Outcome::ProposalOpened { id })
            &&& id == p.id
            &&& fresh_proposal(p, proposer, target, action, commit, now, base.genesis_rec().param_set())
            &&& #[trigger] new.props() == insert_spec(props, id, p)
            &&& new.proposer_slots() == insert_spec(base.proposer_slots(), proposer, id)
            &&& new.pair_slots() == base.pair_slots().push(((target, action), id))
            &&& new.genesis_rec() == base.genesis_rec()
            &&& new.log() == base.log()
            &&& new.cache() == base.cache()
        })
}

/// Rejection, if any, of a paid commitment.
pub open spec fn commit_paid_check(
    base: Room,
    props: Proposals,
    user: UserId,
    id: ProposalId,
    commit: PaidCommitment,
) -> Result<(), Error> {
    if commit.amount@ == 0 {
        Err(Error::ZeroStake)
    } else if available_with(base, props, user@) < commit.amount@ {
        Err(Error::InsufficientBalance)
    } else if !has_key(props, id@) {
        Err(Error::ProposalNotFound)
    } else {
        value_at_key(props, id@).commit_check(user@)
    }
}

/// Rejection, if any, of a free commitment.
pub open spec fn commit_free_check(base: Room, props: Proposals, user: UserId, id: ProposalId) -> Result<
    (),
    Error,
> {
    if base.balance_of(user@) != 0 {
        Err(Error::BalanceNotZero)
    } else if has_free_commit(props, user@) {
        Err(Error::OutstandingFreeCommit)
    } else if !has_key(props, id@) {
        Err(Error::ProposalNotFound)
    } else {
        value_at_key(props, id@).commit_check(user@)
    }
}

/// Effect of a first-round commitment (`kind`, hash `hash`) by `user` on `id`,
/// given its rejection `check`.
pub open spec fn commit_post(
    check: Result<(), Error>,
    base: Room,
    props: Proposals,
    user: UserId,
    id: ProposalId,
    hash: crate::types::Hash,
    kind: CommitmentKind,
    new: Room,
    r: Result<Outcome, Error>,
) -> bool {
    &&& only_props_changed(base, new)
    &&& (check matches Err(e) ==> r == Err::<Outcome, Error>(e) && new.props() == props)
    &&& (check is Ok ==> r == Ok::<Outcome, Error>(Outcome::CommitmentAccepted { proposal: id, user })
        && exists|q: Proposal|
        {
            &&& Proposal::same_header(q, value_at_key(props, id@))
            &&& q.commitments@ == insert_spec(
                value_at_key(props, id@).commitments@,
                user,
                fresh_commitment(hash, kind),
            )
            &&& #[trigger] new.props() == replaced_at(props, id@, q)
        })
}

/// Rejection, if any, of a commit-to-reveal.
pub open spec fn reveal_check(props: Proposals, user: UserId, id: ProposalId) -> Result<(), Error> {
    if !has_key(props, id@) {
        Err(Error::ProposalNotFound)
    } else {
        value_at_key(props, id@).reveal_commit_check(user@)
    }
}

/// Effect of a commit-to-reveal by `user` on `id`.
pub open spec fn reveal_post(
    base: Room,
    props: Proposals,
    user: UserId,
    id: ProposalId,
    commit: RevealCommit,
    new: Room,
    r: Result<Outcome, Error>,
) -> bool {
    let check = reveal_check(props, user, id);
    let p = value_at_key(props, id@);
    let i = index_of_key(p.commitments@, user@);
    &&& only_props_changed(base, new)
    &&& (check matches Err(e) ==> r == Err::<Outcome, Error>(e) && new.props() == props)
    &&& (check is Ok ==> r == Ok::<Outcome, Error>(Outcome::RevealCommitted { proposal: id, user })
        && exists|q: Proposal|
        {
            &&& Proposal::same_header(q, p)
            &&& q.commitments@ == p.commitments@.update(
                i,
                (
                    p.commitments@[i].0,
                    crate::proposal::UserCommitment {
                        reveal_hash: Some(commit.hash),
                        ..value_at_key(p.commitments@, user@)
                    },
                ),
            )
            &&& #[trigger] new.props() == replaced_at(props, id@, q)
        })
}

/// Outcome, if any, of opening `user`'s commitment on `id`.
pub open spec fn open_check_room(props: Proposals, user: UserId, id: ProposalId, o: Opening) -> Result<
    Direction,
    Error,
> {
    if !has_key(props, id@) {
        Err(Error::ProposalNotFound)
    } else {
        value_at_key(props, id@).open_check(user@, o)
    }
}

/// Effect of opening `user`'s commitment on `id`.
pub open spec fn open_post(
    base: Room,
    props: Proposals,
    user: UserId,
    id: ProposalId,
    o: Opening,
    new: Room,
    r: Result<Outcome, Error>,
) -> bool {
    let check = open_check_room(props, user, id, o);
    let p = value_at_key(props, id@);
    let i = index_of_key(p.commitments@, user@);
    &&& only_props_changed(base, new)
    &&& (check matches Err(e) ==> r == Err::<Outcome, Error>(e) && new.props() == props)
    &&& (check matches Ok(d) ==> r == Ok::<Outcome, Error>(Outcome::Opened { proposal: id, user, direction: d })
        && exists|q: Proposal|
        {
            &&& Proposal::same_header(q, p)
            &&& q.commitments@ == p.commitments@.update(
                i,
                (
                    p.commitments@[i].0,
                    crate::proposal::UserCommitment {
                        opened: Some(o.direction),
                        ..value_at_key(p.commitments@, user@)
                    },
                ),
            )
            &&& #[trigger] new.props() == replaced_at(props, id@, q)
        })
}

/// `a + b`, capped at `u128::MAX`.
pub open spec fn sat_add_u128(a: u128, b: u128) -> u128 {
    if a + b > u128::MAX {
        u128::MAX
    } else {
        (a + b) as u128
    }
}

/// Commitments of one proposal, in user order.
pub type Commitments = Seq<(UserId, UserCommitment)>;

/// Threshold weights `(yes, no)` of the opened paid stakes, each sum capped.
pub open spec fn tally(cs: Commitments) -> (u128, u128)
    decreases cs.len(),
{
    if cs.len() == 0 {
        (0, 0)
    } else {
        let prev = tally(cs.drop_last());
        let c = cs.last().1;
        match (c.kind, c.opened) {
            (CommitmentKind::Paid { amount }, Some(Direction::Yes)) => (
                sat_add_u128(prev.0, weight_spec(amount@)),
                prev.1,
            ),
            (CommitmentKind::Paid { amount }, Some(Direction::No)) => (
                prev.0,
                sat_add_u128(prev.1, weight_spec(amount@)),
            ),
            _ => prev,
        }
    }
}

/// Opened paid commitments: user, stake, side.
pub open spec fn opened_paid(cs: Commitments) -> Seq<(UserId, Amount, Direction)>
    decreases cs.len(),
{
    if cs.len() == 0 {
        Seq::empty()
    } else {
        let prev = opened_paid(cs.drop_last());
        let (u, c) = cs.last();
        match (c.kind, c.opened) {
            (CommitmentKind::Paid { amount }, Some(d)) => prev.push((u, amount, d)),
            _ => prev,
        }
    }
}

/// Paid commitments never opened: their stakes are forfeited.
pub open spec fn unopened_paid(cs: Commitments) -> Seq<Payout>
    decreases cs.len(),
{
    if cs.len() == 0 {
        Seq::empty()
    } else {
        let prev = unopened_paid(cs.drop_last());
        let (u, c) = cs.last();
        match (c.kind, c.opened) {
            (CommitmentKind::Paid { amount }, None) => prev.push(Payout { user: u, amount }),
            _ => prev,
        }
    }
}

/// Opened free commitments: user and side.
pub open spec fn opened_free(cs: Commitments) -> Seq<(UserId, Direction)>
    decreases cs.len(),
{
    if cs.len() == 0 {
        Seq::empty()
    } else {
        let prev = opened_free(cs.drop_last());
        let (u, c) = cs.last();
        match (c.kind, c.opened) {
            (CommitmentKind::Free, Some(d)) => prev.push((u, d)),
            _ => prev,
        }
    }
}

/// Opened paid stakes on side `w`.
pub open spec fn winners_of(op: Seq<(UserId, Amount, Direction)>, w: Direction) -> Seq<(UserId, Amount)>
    decreases op.len(),
{
    if op.len() == 0 {
        Seq::empty()
    } else {
        let prev = winners_of(op.drop_last(), w);
        if op.last().2 == w {
            prev.push((op.last().0, op.last().1))
        } else {
            prev
        }
    }
}

/// The side opposite `w`.
pub open spec fn other_side(w: Direction) -> Direction {
    match w {
        Direction::Yes => Direction::No,
        Direction::No => Direction::Yes,
    }
}

/// Opened paid stakes not on side `w`: forfeited.
pub open spec fn losers_of(op: Seq<(UserId, Amount, Direction)>, w: Direction) -> Seq<Payout>
    decreases op.len(),
{
    if op.len() == 0 {
        Seq::empty()
    } else {
        let prev = losers_of(op.drop_last(), w);
        if op.last().2 != w {
            prev.push(Payout { user: op.last().0, amount: op.last().1 })
        } else {
            prev
        }
    }
}

/// Free committers on side `w` whose balance is zero.
pub open spec fn mints_of(cache: Balances, of: Seq<(UserId, Direction)>, w: Direction) -> Seq<UserId>
    decreases of.len(),
{
    if of.len() == 0 {
        Seq::empty()
    } else {
        let prev = mints_of(cache, of.drop_last(), w);
        if of.last().1 == w && cache.balance_of(of.last().0@) == 0 {
            prev.push(of.last().0)
        } else {
            prev
        }
    }
}

/// The side that wins an outcome.
pub open spec fn winning_side(o: OutcomeKind) -> Direction {
    match o {
        OutcomeKind::YesExecuted => Direction::Yes,
        OutcomeKind::NoDefault => Direction::No,
    }
}

/// The restriction a settlement executes: on Yes, for a restriction of a user
/// that is longer than any active one.
pub open spec fn executed_spec(
    log: Seq<SettlementEntry>,
    outcome: OutcomeKind,
    action: Action,
    target: Target,
    now: Timestamp,
) -> Option<Restriction> {
    match (outcome, action, target) {
        (OutcomeKind::YesExecuted, Action::Restrict { duration }, Target::User(u)) => {
            if takes_effect(log, u, now@, duration) {
                Some(Restriction { user: u, duration, start: now })
            } else {
                None
            }
        },
        _ => None,
    }
}

/// The hash a new entry chains from: the last entry's, or genesis on an empty log.
pub open spec fn chain_tip(genesis: Genesis, log: Seq<SettlementEntry>) -> Seq<u8> {
    if log.len() == 0 {
        genesis_digest(genesis)
    } else {
        log.last().this_hash@
    }
}

/// Outcome of settling proposal `p` against `base`.
pub open spec fn settle_outcome(base: Room, p: Proposal) -> OutcomeKind {
    decide_spec(
        tally(p.commitments@).0,
        tally(p.commitments@).1,
        base.cache().supply_spec(),
        threshold_spec(base.genesis_rec().param_set(), p.action),
    )
}

/// Every stake settling `p` forfeits: unopened paid stakes, then the losing opened ones.
pub open spec fn settle_forfeits(base: Room, p: Proposal) -> Seq<Payout> {
    unopened_paid(p.commitments@) + losers_of(
        opened_paid(p.commitments@),
        winning_side(settle_outcome(base, p)),
    )
}

/// `e` is the entry settling `p` at `now` against `base`, with pot `pot`.
pub open spec fn entry_for(e: SettlementEntry, base: Room, p: Proposal, now: Timestamp, pot: u64) -> bool {
    let outcome = settle_outcome(base, p);
    let w = winning_side(outcome);
    let shares = split_payouts(pot, winners_of(opened_paid(p.commitments@), w));
    &&& e.prev_hash@ == chain_tip(base.genesis_rec(), base.log())
    &&& e.proposal_id == p.id
    &&& e.target == p.target
    &&& e.action == p.action
    &&& e.outcome == outcome
    &&& e.payouts@ == sort_by_key(shares)
    &&& e.forfeitures@ == sort_by_key(settle_forfeits(base, p))
    &&& e.free_mints@ == sort_by_key(mints_of(base.cache(), opened_free(p.commitments@), w))
    &&& e.burned@ == pot - payout_sum(shares)
    &&& e.executed_restriction == executed_spec(base.log(), outcome, p.action, p.target, now)
    &&& hash_matches(e)
}

/// Index of the `(t, a)` pair in `s` (meaningful when listed).
pub open spec fn pair_index(s: Seq<((Target, Action), ProposalId)>, t: Target, a: Action) -> int {
    choose|i: int| 0 <= i < s.len() && same_target((#[trigger] s[i]).0.0, t) && s[i].0.1 == a
}

/// `s` without the `(t, a)` pair, if listed.
pub open spec fn pair_removed(s: Seq<((Target, Action), ProposalId)>, t: Target, a: Action) -> Seq<
    ((Target, Action), ProposalId),
> {
    if pair_listed(s, t, a) {
        s.remove(pair_index(s, t, a))
    } else {
        s
    }
}

/// Effect of settling `id` at `now` on `base` whose open proposals are `props`.
pub open spec fn settle_post(
    base: Room,
    props: Proposals,
    id: ProposalId,
    now: Timestamp,
    new: Room,
    r: Result<Outcome, Error>,
) -> bool {
    if !has_key(props, id@) {
        r == Err::<Outcome, Error>(Error::ProposalNotFound) && new.props() == props && only_props_changed(
            base,
            new,
        )
    } else if value_at_key(props, id@).phase != Phase::AwaitingSettlement {
        r == Err::<Outcome, Error>(Error::NotYetSettlable) && new.props() == props && only_props_changed(
            base,
            new,
        )
    } else if payout_sum(settle_forfeits(base, value_at_key(props, id@))) > u64::MAX {
        r == Err::<Outcome, Error>(Error::Overflow) && new.props() == props.remove(
            index_of_key(props, id@),
        ) && only_props_changed(base, new)
    } else {
        let p = value_at_key(props, id@);
        let pot = payout_sum(settle_forfeits(base, p)) as u64;
        exists|e: SettlementEntry|
            {
                let eff = settlement_effect(base.cache().ledger(), e);
                &&& #[trigger] entry_for(e, base, p, now, pot)
                &&& new.cache().models(eff.0)
                &&& new.genesis_rec() == base.genesis_rec()
                &&& (eff.1 matches Some(err) ==> {
                    &&& r == Err::<Outcome, Error>(err)
                    &&& new.props() == props
                    &&& new.log() == base.log()
                    &&& new.proposer_slots() == base.proposer_slots()
                    &&& new.pair_slots() == base.pair_slots()
                })
                &&& (eff.1 is None ==> {
                    &&& r matches Ok(Outcome::Settled(x)) && same_entry(x, e)
                    &&& new.props() == props.remove(index_of_key(props, id@))
                    &&& new.log() == base.log().push(e)
                    &&& new.proposer_slots() == remove_key_spec(base.proposer_slots(), p.proposer@)
                    &&& new.pair_slots() == pair_removed(base.pair_slots(), p.target, p.action)
                    &&& (base.cache().consistent() ==> new.cache().consistent())
                })
            }
    }
}

/// No two open proposals share a proposer, and no two share a
/// `(target, action)` pair.
pub open spec fn props_distinct(props: Proposals) -> bool {
    &&& forall|i: int, j: int|
        0 <= i < j < props.len() ==> (#[trigger] props[i]).1.proposer@ != (#[trigger] props[j]).1.proposer@
    &&& forall|i: int, j: int|
        0 <= i < j < props.len() ==> !(same_target((#[trigger] props[i]).1.target, (#[trigger] props[j]).1.target)
            && props[i].1.action == props[j].1.action)
}

/// Some open proposal was opened by the user with key `k`.
pub open spec fn proposed_by(props: Proposals, k: Seq<u8>) -> bool {
    exists|i: int| 0 <= i < props.len() && (#[trigger] props[i]).1.proposer@ == k
}

/// Some open proposal is on `(t, a)`.
pub open spec fn proposed_on(props: Proposals, t: Target, a: Action) -> bool {
    exists|i: int| 0 <= i < props.len() && same_target((#[trigger] props[i]).1.target, t) && props[i].1.action == a
}

/// The open proposals have distinct proposers and pairs, the proposer index
/// lists exactly their proposers, and the pair index exactly their pairs.
pub open spec fn slots_match_for(
    props: Proposals,
    proposers: Seq<(UserId, ProposalId)>,
    pairs: Seq<((Target, Action), ProposalId)>,
) -> bool {
    &&& props_distinct(props)
    &&& forall|k: Seq<u8>| #[trigger] has_key(proposers, k) == proposed_by(props, k)
    &&& forall|t: Target, a: Action| #[trigger] pair_listed(pairs, t, a) == proposed_on(props, t, a)
}

/// An `OpenProposal` command names an id that no open proposal has.
pub open spec fn opens_fresh_id(props: Proposals, cmd: Command) -> bool {
    match cmd {
        Command::OpenProposal { proposer, target, action, commit } => !has_key(
            props,
            proposal_id_digest(proposer, target, action, commit.hash@),
        ),
        _ => true,
    }
}

/// Effect of `cmd` at `now` on `base` whose open proposals, already advanced
/// to `now`, are `props`.
pub open spec fn command_post(
    base: Room,
    props: Proposals,
    cmd: Command,
    now: Timestamp,
    new: Room,
    r: Result<Outcome, Error>,
) -> bool {
    match cmd {
        Command::OpenProposal { proposer, target, action, commit } => open_proposal_post(
            base,
            props,
            proposer,
            target,
            action,
            commit,
            now,
            new,
            r,
        ),
        Command::CommitPaid { user, proposal, commit } => commit_post(
            commit_paid_check(base, props, user, proposal, commit),
            base,
            props,
            user,
            proposal,
            commit.hash,
            CommitmentKind::Paid { amount: commit.amount },
            new,
            r,
        ),
        Command::CommitFree { user, proposal, commit } => commit_post(
            commit_free_check(base, props, user, proposal),
            base,
            props,
            user,
            proposal,
            commit.hash,
            CommitmentKind::Free,
            new,
            r,
        ),
        Command::CommitToReveal { user, proposal, commit } => reveal_post(
            base,
            props,
            user,
            proposal,
            commit,
            new,
            r,
        ),
        Command::Open { user, proposal, opening } => open_post(base, props, user, proposal, opening, new, r),
        Command::Settle { proposal } => settle_post(base, props, proposal, now, new, r),
    }
}

/// Live room: genesis, settlement log, and ephemeral open proposals.
///
/// Balances are a cache of replaying the log. They are not primary state.
#[derive(Clone, Debug)]
pub struct Room {
    genesis: Genesis,
    settlements: Vec<SettlementEntry>,
    balances: Balances,
    proposals: IdMap<ProposalId, Proposal>,
    proposer_index: IdMap<UserId, ProposalId>,
    target_action_index: Vec<((Target, Action), ProposalId)>,
}

impl Room {
    /// The genesis record.
    pub closed spec fn genesis_rec(&self) -> Genesis {
        self.genesis
    }

    /// The settlement log.
    pub closed spec fn log(&self) -> Seq<SettlementEntry> {
        self.settlements@
    }

    /// The balance cache.
    pub closed spec fn cache(&self) -> Balances {
        self.balances
    }

    /// Open proposals, in key order.
    pub closed spec fn props(&self) -> Proposals {
        self.proposals@
    }

    /// Which proposer has which open proposal.
    pub closed spec fn proposer_slots(&self) -> Seq<(UserId, ProposalId)> {
        self.proposer_index@
    }

    /// Which `(target, action)` pair has which open proposal.
    pub closed spec fn pair_slots(&self) -> Seq<((Target, Action), ProposalId)> {
        self.target_action_index@
    }

    /// Balance of the user with key `k`.
    pub open spec fn balance_of(&self, k: Seq<u8>) -> u64 {
        self.cache().balance_of(k)
    }

    /// Available balance of the user with key `k`: balance minus locks, floored at zero.
    pub open spec fn available_spec(&self, k: Seq<u8>) -> u64 {
        sat_sub(self.balance_of(k), locks_total(self.props(), k))
    }

    /// Internal well-formedness: sorted maps, no zero balances, unique pairs.
    pub closed spec fn wf(&self) -> bool {
        &&& self.balances.wf()
        &&& self.proposals.wf()
        &&& proposals_wf(self.proposals@)
        &&& self.proposer_index.wf()
        &&& pairs_unique(self.target_action_index@)
    }

    /// The log chains from genesis, replays without error, and the balance
    /// cache holds exactly its replay, with a supply equal to the sum of balances.
    pub open spec fn consistent(&self) -> bool {
        &&& chain_check(genesis_digest(self.genesis_rec()), self.log()) == Ok::<(), Error>(())
        &&& replay_from(genesis_ledger(self.genesis_rec().founder_list()), self.log()).1 is None
        &&& self.cache().models(
            replay_from(genesis_ledger(self.genesis_rec().founder_list()), self.log()).0,
        )
        &&& self.cache().consistent()
    }

    /// One open proposal per proposer and per `(target, action)` pair, with
    /// the indexes that enforce it listing exactly the open proposals.
    pub open spec fn slots_match(&self) -> bool {
        slots_match_for(self.props(), self.proposer_slots(), self.pair_slots())
    }

    /// Escrow: no user has more locked on open proposals than their balance.
    pub open spec fn escrow_ok(&self) -> bool {
        escrow_for(self.props(), self.cache())
    }

    /// At most one outstanding free commitment per user.
    pub open spec fn free_commits_once(&self) -> bool {
        free_once(self.props())
    }

    /// Every open proposal's action is valid for its target.
    pub open spec fn actions_valid(&self) -> bool {
        actions_valid(self.props())
    }

    /// Every room-wide rule holds: well formed, consistent with its log,
    /// escrow kept, indexes matching, free commitments unique, actions valid
    /// for their targets.
    pub open spec fn sound(&self) -> bool {
        &&& self.wf()
        &&& self.consistent()
        &&& self.escrow_ok()
        &&& self.slots_match()
        &&& self.free_commits_once()
        &&& self.actions_valid()
    }

    /// Create a room at genesis. Each founder holds one token; no proposals.
    pub fn genesis(genesis: Genesis) -> (r: Result<Self, Error>)
        ensures
            r matches Ok(room) ==> {
                &&& room.wf()
                &&& room.genesis_rec() == genesis
                &&& room.log() == Seq::<SettlementEntry>::empty()
                &&& room.props() == Seq::<(ProposalId, Proposal)>::empty()
                &&& room.proposer_slots() == Seq::<(UserId, ProposalId)>::empty()
                &&& room.pair_slots() == Seq::<((Target, Action), ProposalId)>::empty()
                &&& room.cache().models(genesis_ledger(genesis.founder_list()))
                &&& room.slots_match()
                &&& room.escrow_ok()
                &&& room.free_commits_once()
                &&& (genesis.founder_list().len() * TOKEN <= u64::MAX ==> room.sound())
            },
            r is Ok,
    {
        let balances = Balances::from_genesis(&genesis);
        let room = Room {
            genesis,
            settlements: Vec::new(),
            balances,
            proposals: IdMap::new(),
            proposer_index: IdMap::new(),
            target_action_index: Vec::new(),
        };
        proof {
            assert(chain_check(genesis_digest(room.genesis), room.settlements@) == Ok::<(), Error>(()));
        }
        Ok(room)
    }

    /// Rebuild settled state from the log. In-flight proposals are not restored.
    pub fn from_log(genesis: Genesis, entries: Vec<SettlementEntry>) -> (r: Result<Self, Error>)
        ensures
            chain_check(genesis_digest(genesis), entries@) matches Err(e) ==> r == Err::<Self, Error>(e),
            chain_check(genesis_digest(genesis), entries@) is Ok ==> (r is Ok <==> replay_from(
                genesis_ledger(genesis.founder_list()),
                entries@,
            ).1 is None),
            chain_check(genesis_digest(genesis), entries@) is Ok ==> (replay_from(
                genesis_ledger(genesis.founder_list()),
                entries@,
            ).1 matches Some(e) ==> r == Err::<Self, Error>(e)),
            r matches Ok(room) ==> {
                &&& room.wf()
                &&& room.genesis_rec() == genesis
                &&& room.log() == entries@
                &&& room.props() == Seq::<(ProposalId, Proposal)>::empty()
                &&& room.proposer_slots() == Seq::<(UserId, ProposalId)>::empty()
                &&& room.pair_slots() == Seq::<((Target, Action), ProposalId)>::empty()
                &&& room.cache().models(replay_from(genesis_ledger(genesis.founder_list()), entries@).0)
                &&& room.slots_match()
                &&& room.escrow_ok()
                &&& room.free_commits_once()
                &&& (genesis.founder_list().len() * TOKEN <= u64::MAX ==> room.sound())
            },
    {
        let gh = genesis.hash();
        verify_chain(gh, entries.as_slice())?;
        let balances = replay(&genesis, entries.as_slice())?;
        Ok(
            Room {
                genesis,
                settlements: entries,
                balances,
                proposals: IdMap::new(),
                proposer_index: IdMap::new(),
                target_action_index: Vec::new(),
            },
        )
    }

    /// The room parameters, frozen at genesis.
    pub fn params(&self) -> (r: &RoomParams)
        ensures
            *r == self.genesis_rec().param_set(),
    {
        self.genesis.params()
    }

    /// Balance of `user` as replayed from the log.
    pub fn balance(&self, user: &UserId) -> (r: Amount)
        requires
            self.wf(),
        ensures
            r@ == self.balance_of(user@),
    {
        self.balances.get(user)
    }

    /// Total token supply.
    pub fn supply(&self) -> (r: Amount)
        ensures
            r@ == self.cache().supply_spec(),
    {
        self.balances.supply()
    }

    /// The settlement log, oldest first.
    pub fn settlements(&self) -> (r: &[SettlementEntry])
        ensures
            r@ == self.log(),
    {
        self.settlements.as_slice()
    }

    /// Snapshots of the open proposals, in id order.
    pub fn open_proposals(&self) -> (r: Vec<ProposalView>)
        ensures
            r@.len() == self.props().len(),
            forall|i: int| 0 <= i < r@.len() ==> shows(#[trigger] r@[i], self.props()[i].1),
    {
        let mut out: Vec<ProposalView> = Vec::new();
        let mut i: usize = 0;
        while i < self.proposals.len()
            invariant
                0 <= i <= self.proposals@.len(),
                out@.len() == i,
                forall|j: int| 0 <= j < i ==> shows(#[trigger] out@[j], self.proposals@[j].1),
            decreases self.proposals@.len() - i,
        {
            out.push(self.proposals.entry_at(i).1.view());
            i = i + 1;
        }
        out
    }

    /// Snapshot of the proposal `id`, if open.
    pub fn proposal(&self, id: &ProposalId) -> (r: Option<ProposalView>)
        requires
            self.wf(),
        ensures
            r is Some <==> has_key(self.props(), id@),
            r matches Some(v) ==> shows(v, value_at_key(self.props(), id@)),
    {
        match self.proposals.get(id) {
            Some(p) => Some(p.view()),
            None => None,
        }
    }

    /// `user` may open a proposal: positive balance and no open proposal of theirs.
    pub fn can_open(&self, user: &UserId) -> (r: bool)
        requires
            self.wf(),
        ensures
            r == (self.balance_of(user@) != 0 && !has_key(self.proposer_slots(), user@)),
    {
        !self.balances.get(user).is_zero() && !self.proposer_index.contains(user)
    }

    /// `user` may free-commit: zero balance and no outstanding free commitment.
    pub fn can_free_commit(&self, user: &UserId) -> (r: bool)
        requires
            self.wf(),
        ensures
            r == (self.balance_of(user@) == 0 && !has_free_commit(self.props(), user@)),
    {
        self.balances.get(user).is_zero() && !self.has_outstanding_free(user)
    }

    /// Effective restriction on `user` at `now`, from the settlement log.
    pub fn effective_restriction(&self, user: &UserId, now: Timestamp) -> (r: Option<Restriction>)
        ensures
            r is None <==> !has_applicable(self.log(), *user, now@),
            r matches Some(b) ==> is_effective(self.log(), *user, now@, b),
    {
        effective_restriction(self.settlements.as_slice(), user, now)
    }

    /// Available = replayed balance minus locks across all open proposals.
    pub fn available(&self, user: &UserId) -> (r: Amount)
        requires
            self.wf(),
        ensures
            r@ == self.available_spec(user@),
            self.escrow_ok() ==> r@ == self.balance_of(user@) - locks_sum(self.props(), user@),
    {
        let mut locked = Amount::zero();
        let mut i: usize = 0;
        while i < self.proposals.len()
            invariant
                0 <= i <= self.proposals@.len(),
                self.wf(),
                locked@ == locks_total(self.proposals@.take(i as int), user@),
            decreases self.proposals@.len() - i,
        {
            assert(self.proposals@.take(i + 1).drop_last() =~= self.proposals@.take(i as int));
            assert(self.proposals@[i as int].1.wf());
            let p = &self.proposals.entry_at(i).1;
            locked = locked.saturating_add(p.locked_by(user));
            i = i + 1;
        }
        assert(self.proposals@.take(self.proposals@.len() as int) =~= self.proposals@);
        proof {
            lemma_locks_total_exact(self.props(), user@);
        }
        self.balances.get(user).saturating_sub(locked)
    }

    /// Advance windows. Does not auto-settle.
    pub fn tick(&mut self, now: Timestamp) -> (r: Vec<Outcome>)
        requires
            old(self).wf(),
        ensures
            final(self).wf(),
            final(self).props() == tick_spec(old(self).props(), now@),
            r@ == tick_outcomes(old(self).props(), now@),
            final(self).genesis_rec() == old(self).genesis_rec(),
            final(self).log() == old(self).log(),
            final(self).cache() == old(self).cache(),
            final(self).proposer_slots() == old(self).proposer_slots(),
            final(self).pair_slots() == old(self).pair_slots(),
            old(self).slots_match() ==> final(self).slots_match(),
            old(self).escrow_ok() ==> final(self).escrow_ok(),
            old(self).free_commits_once() ==> final(self).free_commits_once(),
            old(self).sound() ==> final(self).sound(),
    {
        let ghost s0 = self.proposals@;
        let mut out: Vec<Outcome> = Vec::new();
        let mut i: usize = 0;
        while i < self.proposals.len()
            invariant
                0 <= i <= self.proposals@.len(),
                self.proposals@.len() == s0.len(),
                proposals_wf(self.proposals@),
                forall|j: int| 0 <= j < i ==> #[trigger] self.proposals@[j] == (s0[j].0, advanced(s0[j].1, now@)),
                forall|j: int| i <= j < s0.len() ==> #[trigger] self.proposals@[j] == s0[j],
                out@ == tick_outcomes(s0.take(i as int), now@),
                self.genesis == old(self).genesis,
                self.settlements == old(self).settlements,
                self.balances == old(self).balances,
                self.proposer_index == old(self).proposer_index,
                self.target_action_index == old(self).target_action_index,
                s0 == old(self).proposals@,
                old(self).wf(),
            decreases self.proposals@.len() - i,
        {
            let ghost s = self.proposals@;
            assert(s0.take(i + 1).drop_last() =~= s0.take(i as int));
            assert(s0.take(i + 1).last() == s0[i as int]);
            let before = self.proposals.entry_at(i).1.phase;
            let id = self.proposals.entry_at(i).1.id;
            let p = self.proposals.value_at_mut(i);
            p.advance(now);
            let after = p.phase;
            proof {
                lemma_update_value_keeps_wf(s, i as int, self.proposals@[i as int].1);
                assert(self.proposals@ == s.update(i as int, (s[i as int].0, self.proposals@[i as int].1)));
            }
            if after != before {
                out.push(Outcome::PhaseChanged { proposal: id, phase: after });
            }
            proof {
                let t = self.proposals@;
                assert forall|j: int| 0 <= j < t.len() implies (#[trigger] t[j]).1.wf() by {
                    if j != i {
                        assert(t[j] == s[j]);
                    }
                }
            }
            i = i + 1;
        }
        assert(self.proposals@ =~= tick_spec(s0, now@));
        assert(s0.take(s0.len() as int) =~= s0);
        proof {
            lemma_tick_keeps_slots(s0, self.proposer_slots(), self.pair_slots(), now@);
            assert forall|k: Seq<u8>| #[trigger] locks_sum(self.props(), k) == locks_sum(s0, k) by {
                lemma_locks_tick(s0, now@, k);
            }
            lemma_tick_keeps_free_once(s0, now@);
        }
        out
    }

    /// Advance the windows to `now`, then run `cmd`.
    #[verifier::spinoff_prover]
    pub fn apply(&mut self, cmd: Command, now: Timestamp) -> (r: Result<Outcome, Error>)
        requires
            old(self).wf(),
        ensures
            final(self).wf(),
            command_post(*old(self), tick_spec(old(self).props(), now@), cmd, now, *final(self), r),
            final(self).genesis_rec() == old(self).genesis_rec(),
            old(self).consistent() && (r is Ok || final(self).cache() == old(self).cache())
                ==> final(self).consistent(),
            old(self).slots_match() && opens_fresh_id(old(self).props(), cmd) && (r is Ok || final(self).props()
                == tick_spec(old(self).props(), now@)) ==> final(self).slots_match(),
            old(self).escrow_ok() && (r is Ok || final(self).cache() == old(self).cache())
                ==> final(self).escrow_ok(),
            old(self).consistent() && old(self).escrow_ok() && (cmd matches Command::Settle { proposal }
                && settle_due(tick_spec(old(self).props(), now@), proposal, old(self).cache().supply_spec()))
                ==> r is Ok,
            old(self).free_commits_once() ==> final(self).free_commits_once(),
            old(self).actions_valid() ==> final(self).actions_valid(),
            old(self).consistent() && old(self).escrow_ok() && r != Err::<Outcome, Error>(Error::Overflow)
                ==> final(self).consistent() && final(self).escrow_ok(),
            old(self).sound() && opens_fresh_id(old(self).props(), cmd) && r != Err::<Outcome, Error>(Error::Overflow)
                ==> final(self).sound(),
    {
        let ghost base = *self;
        self.tick(now);
        let ghost mid = *self;
        let r = match cmd {
            Command::OpenProposal { proposer, target, action, commit } => self.open_proposal(
                proposer,
                target,
                action,
                commit,
                now,
            ),
            Command::CommitPaid { user, proposal, commit } => self.commit_paid(user, proposal, commit),
            Command::CommitFree { user, proposal, commit } => self.commit_free(user, proposal, commit),
            Command::CommitToReveal { user, proposal, commit } => self.commit_to_reveal(
                user,
                proposal,
                commit,
            ),
            Command::Open { user, proposal, opening } => self.open(user, proposal, opening),
            Command::Settle { proposal } => self.settle(proposal, now),
        };
        proof {
            lemma_post_base(base, mid, tick_spec(base.props(), now@), cmd, now, *self, r);
            lemma_apply_laws(base, mid, cmd, now, *self, r);
        }
        r
    }

    fn has_outstanding_free(&self, user: &UserId) -> (r: bool)
        requires
            self.wf(),
        ensures
            r == has_free_commit(self.props(), user@),
    {
        let mut i: usize = 0;
        while i < self.proposals.len()
            invariant
                0 <= i <= self.proposals@.len(),
                self.wf(),
                forall|j: int|
                    0 <= j < i ==> !(has_key((#[trigger] self.proposals@[j]).1.commitments@, user@)
                        && value_at_key(self.proposals@[j].1.commitments@, user@).kind is Free),
            decreases self.proposals@.len() - i,
        {
            let p = &self.proposals.entry_at(i).1;
            assert(self.proposals@[i as int].1.wf());
            match p.commitments.get(user) {
                Some(c) => {
                    if c.is_free() {
                        return true;
                    }
                },
                None => {},
            }
            i = i + 1;
        }
        false
    }

    /// Position of the `(target, action)` pair in the pair index, if listed.
    fn pair_position(&self, target: Target, action: Action) -> (r: Option<usize>)
        ensures
            r matches Some(i) ==> i < self.pair_slots().len() && same_target(
                self.pair_slots()[i as int].0.0,
                target,
            ) && self.pair_slots()[i as int].0.1 == action,
            r is None <==> !pair_listed(self.pair_slots(), target, action),
    {
        let mut i: usize = 0;
        while i < self.target_action_index.len()
            invariant
                0 <= i <= self.target_action_index@.len(),
                forall|j: int|
                    0 <= j < i ==> !(same_target((#[trigger] self.target_action_index@[j]).0.0, target)
                        && self.target_action_index@[j].0.1 == action),
            decreases self.target_action_index@.len() - i,
        {
            let entry = self.target_action_index[i].0;
            if entry.0.same(target) && entry.1.same(action) {
                return Some(i);
            }
            i = i + 1;
        }
        None
    }

    fn open_proposal(
        &mut self,
        proposer: UserId,
        target: Target,
        action: Action,
        commit: PaidCommitment,
        now: Timestamp,
    ) -> (r: Result<Outcome, Error>)
        requires
            old(self).wf(),
        ensures
            final(self).wf(),
            open_proposal_post(*old(self), old(self).props(), proposer, target, action, commit, now, *final(self), r),
    {
        if !action.is_valid_for(target) {
            return Err(Error::InvalidActionForTarget);
        }
        if commit.amount.is_zero() {
            return Err(Error::ZeroStake);
        }
        if self.balances.get(&proposer).is_zero() {
            return Err(Error::ZeroBalanceCannotOpen);
        }
        if self.proposer_index.contains(&proposer) {
            return Err(Error::ProposerHasOpenProposal);
        }
        if self.pair_position(target, action).is_some() {
            return Err(Error::DuplicateTargetAction);
        }
        if self.available(&proposer).subunits() < commit.amount.subunits() {
            return Err(Error::InsufficientBalance);
        }
        let proposal = Proposal::new(proposer, target, action, commit, now, self.params());
        let id = proposal.id;
        let ghost p = proposal;
        let ghost s = self.proposals@;
        let ghost ta = self.target_action_index@;
        self.proposer_index.insert(proposer, id);
        self.target_action_index.push(((target, action), id));
        self.proposals.insert(id, proposal);
        proof {
            lemma_insert_keeps_proposals_wf(s, id, p);
            let t = self.target_action_index@;
            assert forall|a: int, b: int| 0 <= a < b < t.len() implies !(same_target(
                (#[trigger] t[a]).0.0,
                (#[trigger] t[b]).0.0,
            ) && t[a].0.1 == t[b].0.1) by {
                if b == t.len() - 1 {
                    assert(t[a] == ta[a]);
                    crate::types::lemma_same_target_symmetric(t[a].0.0, target);
                } else {
                    assert(t[a] == ta[a]);
                    assert(t[b] == ta[b]);
                }
            }
            assert(self.props() == insert_spec(s, id, p));
        }
        Ok(Outcome::ProposalOpened { id })
    }

    fn commit_paid(&mut self, user: UserId, id: ProposalId, commit: PaidCommitment) -> (r: Result<
        Outcome,
        Error,
    >)
        requires
            old(self).wf(),
        ensures
            final(self).wf(),
            commit_post(
                commit_paid_check(*old(self), old(self).props(), user, id, commit),
                *old(self),
                old(self).props(),
                user,
                id,
                commit.hash,
                CommitmentKind::Paid { amount: commit.amount },
                *final(self),
                r,
            ),
    {
        if commit.amount.is_zero() {
            return Err(Error::ZeroStake);
        }
        if self.available(&user).subunits() < commit.amount.subunits() {
            return Err(Error::InsufficientBalance);
        }
        let i = match self.proposals.find(&id) {
            Some(i) => i,
            None => {
                return Err(Error::ProposalNotFound);
            },
        };
        let ghost s = self.proposals@;
        proof {
            lemma_index_of_key(s, i as int);
            assert(s[i as int].1.wf());
        }
        let p = self.proposals.value_at_mut(i);
        let res = p.commit_paid(user, commit);
        proof {
            lemma_replace_keeps_proposals_wf(s, i as int, self.proposals@[i as int].1);
            assert(self.proposals@ =~= replaced_at(s, id@, self.proposals@[i as int].1));
        }
        match res {
            Ok(()) => Ok(Outcome::CommitmentAccepted { proposal: id, user }),
            Err(e) => {
                assert(self.proposals@ =~= s);
                Err(e)
            },
        }
    }

    fn commit_free(&mut self, user: UserId, id: ProposalId, commit: FreeCommitment) -> (r: Result<
        Outcome,
        Error,
    >)
        requires
            old(self).wf(),
        ensures
            final(self).wf(),
            commit_post(
                commit_free_check(*old(self), old(self).props(), user, id),
                *old(self),
                old(self).props(),
                user,
                id,
                commit.hash,
                CommitmentKind::Free,
                *final(self),
                r,
            ),
    {
        if !self.balances.get(&user).is_zero() {
            return Err(Error::BalanceNotZero);
        }
        if self.has_outstanding_free(&user) {
            return Err(Error::OutstandingFreeCommit);
        }
        let i = match self.proposals.find(&id) {
            Some(i) => i,
            None => {
                return Err(Error::ProposalNotFound);
            },
        };
        let ghost s = self.proposals@;
        proof {
            lemma_index_of_key(s, i as int);
            assert(s[i as int].1.wf());
        }
        let p = self.proposals.value_at_mut(i);
        let res = p.commit_free(user, commit);
        proof {
            lemma_replace_keeps_proposals_wf(s, i as int, self.proposals@[i as int].1);
            assert(self.proposals@ =~= replaced_at(s, id@, self.proposals@[i as int].1));
        }
        match res {
            Ok(()) => Ok(Outcome::CommitmentAccepted { proposal: id, user }),
            Err(e) => {
                assert(self.proposals@ =~= s);
                Err(e)
            },
        }
    }

    fn commit_to_reveal(&mut self, user: UserId, id: ProposalId, commit: RevealCommit) -> (r: Result<
        Outcome,
        Error,
    >)
        requires
            old(self).wf(),
        ensures
            final(self).wf(),
            reveal_post(*old(self), old(self).props(), user, id, commit, *final(self), r),
    {
        let i = match self.proposals.find(&id) {
            Some(i) => i,
            None => {
                return Err(Error::ProposalNotFound);
            },
        };
        let ghost s = self.proposals@;
        proof {
            lemma_index_of_key(s, i as int);
            assert(s[i as int].1.wf());
        }
        let p = self.proposals.value_at_mut(i);
        let res = p.commit_to_reveal(user, commit);
        proof {
            lemma_replace_keeps_proposals_wf(s, i as int, self.proposals@[i as int].1);
            assert(self.proposals@ =~= replaced_at(s, id@, self.proposals@[i as int].1));
        }
        match res {
            Ok(()) => Ok(Outcome::RevealCommitted { proposal: id, user }),
            Err(e) => {
                assert(self.proposals@ =~= s);
                Err(e)
            },
        }
    }

    fn open(&mut self, user: UserId, id: ProposalId, opening: Opening) -> (r: Result<Outcome, Error>)
        requires
            old(self).wf(),
        ensures
            final(self).wf(),
            open_post(*old(self), old(self).props(), user, id, opening, *final(self), r),
    {
        let i = match self.proposals.find(&id) {
            Some(i) => i,
            None => {
                return Err(Error::ProposalNotFound);
            },
        };
        let ghost s = self.proposals@;
        proof {
            lemma_index_of_key(s, i as int);
            assert(s[i as int].1.wf());
        }
        let p = self.proposals.value_at_mut(i);
        let res = p.open(user, opening);
        proof {
            lemma_replace_keeps_proposals_wf(s, i as int, self.proposals@[i as int].1);
            assert(self.proposals@ =~= replaced_at(s, id@, self.proposals@[i as int].1));
        }
        match res {
            Ok(direction) => Ok(Outcome::Opened { proposal: id, user, direction }),
            Err(e) => {
                assert(self.proposals@ =~= s);
                Err(e)
            },
        }
    }
    /// Walk the commitments of a proposal being settled: threshold weights of
    /// opened paid stakes, the opened paid and free commitments, and the
    /// forfeited unopened stakes with their total.
    fn tally_commitments(cs: &IdMap<UserId, UserCommitment>) -> (r: Result<
        (u128, u128, Vec<(UserId, Amount, Direction)>, Vec<Payout>, Amount, Vec<(UserId, Direction)>),
        Error,
    >)
        ensures
            payout_sum(unopened_paid(cs@)) > u64::MAX ==> r == Err::<
                (u128, u128, Vec<(UserId, Amount, Direction)>, Vec<Payout>, Amount, Vec<(UserId, Direction)>),
                Error,
            >(Error::Overflow),
            payout_sum(unopened_paid(cs@)) <= u64::MAX ==> (r matches Ok(t) && {
                &&& t.0 == tally(cs@).0
                &&& t.1 == tally(cs@).1
                &&& t.2@ == opened_paid(cs@)
                &&& t.3@ == unopened_paid(cs@)
                &&& t.4@ == payout_sum(unopened_paid(cs@))
                &&& t.5@ == opened_free(cs@)
            }),
    {
        let mut yes_weight: u128 = 0;
        let mut no_weight: u128 = 0;
        let mut opened: Vec<(UserId, Amount, Direction)> = Vec::new();
        let mut forfeitures: Vec<Payout> = Vec::new();
        let mut pot = Amount::zero();
        let mut free: Vec<(UserId, Direction)> = Vec::new();
        let mut i: usize = 0;
        while i < cs.len()
            invariant
                0 <= i <= cs@.len(),
                yes_weight == tally(cs@.take(i as int)).0,
                no_weight == tally(cs@.take(i as int)).1,
                opened@ == opened_paid(cs@.take(i as int)),
                forfeitures@ == unopened_paid(cs@.take(i as int)),
                pot@ == payout_sum(forfeitures@),
                free@ == opened_free(cs@.take(i as int)),
            decreases cs@.len() - i,
        {
            let (user, c) = *cs.entry_at(i);
            assert(cs@.take(i + 1).drop_last() =~= cs@.take(i as int));
            assert(cs@.take(i + 1).last() == cs@[i as int]);
            match (c.kind, c.opened) {
                (CommitmentKind::Paid { amount }, Some(dir)) => {
                    opened.push((user, amount, dir));
                    match dir {
                        Direction::Yes => {
                            yes_weight = yes_weight.saturating_add(weight(amount));
                        },
                        Direction::No => {
                            no_weight = no_weight.saturating_add(weight(amount));
                        },
                    }
                },
                (CommitmentKind::Paid { amount }, None) => {
                    let ghost before = forfeitures@;
                    forfeitures.push(Payout { user, amount });
                    assert(forfeitures@.drop_last() =~= before);
                    pot = match pot.checked_add_err(amount) {
                        Ok(v) => v,
                        Err(e) => {
                            proof {
                                lemma_unopened_prefix(cs@, i + 1);
                            }
                            return Err(e);
                        },
                    };
                },
                (CommitmentKind::Free, Some(dir)) => {
                    free.push((user, dir));
                },
                (CommitmentKind::Free, None) => {},
            }
            i = i + 1;
        }
        assert(cs@.take(cs@.len() as int) =~= cs@);
        Ok((yes_weight, no_weight, opened, forfeitures, pot, free))
    }

    /// Split opened paid stakes into winners on side `w` and losers, whose
    /// stakes join `forfeitures` and the pot.
    fn split_sides(
        opened: &Vec<(UserId, Amount, Direction)>,
        w: Direction,
        forfeited: Vec<Payout>,
        pot: Amount,
    ) -> (r: Result<(Vec<(UserId, Amount)>, Vec<Payout>, Amount), Error>)
        requires
            pot@ == payout_sum(forfeited@),
        ensures
            payout_sum(forfeited@ + losers_of(opened@, w)) > u64::MAX ==> r == Err::<
                (Vec<(UserId, Amount)>, Vec<Payout>, Amount),
                Error,
            >(Error::Overflow),
            payout_sum(forfeited@ + losers_of(opened@, w)) <= u64::MAX ==> (r matches Ok(t) && {
                &&& t.0@ == winners_of(opened@, w)
                &&& t.1@ == forfeited@ + losers_of(opened@, w)
                &&& t.2@ == payout_sum(t.1@)
            }),
    {
        let ghost f0 = forfeited@;
        let mut forfeitures = forfeited;
        let mut pot = pot;
        let mut winners: Vec<(UserId, Amount)> = Vec::new();
        let mut j: usize = 0;
        while j < opened.len()
            invariant
                0 <= j <= opened@.len(),
                winners@ == winners_of(opened@.take(j as int), w),
                f0 == forfeited@,
                forfeitures@ == f0 + losers_of(opened@.take(j as int), w),
                pot@ == payout_sum(forfeitures@),
            decreases opened@.len() - j,
        {
            let (user, amount, dir) = opened[j];
            assert(opened@.take(j + 1).drop_last() =~= opened@.take(j as int));
            assert(opened@.take(j + 1).last() == opened@[j as int]);
            if dir == w {
                winners.push((user, amount));
            } else {
                let ghost before = forfeitures@;
                forfeitures.push(Payout { user, amount });
                assert(forfeitures@.drop_last() =~= before);
                assert(forfeitures@ =~= f0 + losers_of(opened@.take(j + 1), w));
                assert(payout_sum(forfeitures@) == pot@ + amount@);
                pot = match pot.checked_add_err(amount) {
                    Ok(v) => v,
                    Err(e) => {
                        proof {
                            lemma_losers_prefix(opened@, j + 1, w);
                            lemma_payout_sum_concat(f0, losers_of(opened@.take(j + 1), w));
                            lemma_payout_sum_concat(f0, losers_of(opened@, w));
                            assert(pot@ + amount@ > u64::MAX);
                            assert(payout_sum(f0 + losers_of(opened@.take(j + 1), w)) > u64::MAX);
                            assert(payout_sum(f0 + losers_of(opened@, w)) > u64::MAX);
                            assert(f0 == forfeited@);
                        }
                        return Err(e);
                    },
                };
            }
            j = j + 1;
        }
        assert(opened@.take(opened@.len() as int) =~= opened@);
        Ok((winners, forfeitures, pot))
    }

    /// Free committers on side `w` whose balance is still zero.
    fn free_mints_for(&self, free: &Vec<(UserId, Direction)>, w: Direction) -> (r: Vec<UserId>)
        requires
            self.wf(),
        ensures
            r@ == mints_of(self.cache(), free@, w),
    {
        let mut mints: Vec<UserId> = Vec::new();
        let mut k: usize = 0;
        while k < free.len()
            invariant
                0 <= k <= free@.len(),
                self.wf(),
                mints@ == mints_of(self.cache(), free@.take(k as int), w),
            decreases free@.len() - k,
        {
            let (user, dir) = free[k];
            assert(free@.take(k + 1).drop_last() =~= free@.take(k as int));
            assert(free@.take(k + 1).last() == free@[k as int]);
            if dir == w && self.balances.get(&user).is_zero() {
                mints.push(user);
            }
            k = k + 1;
        }
        assert(free@.take(free@.len() as int) =~= free@);
        mints
    }

    /// The restriction a settlement with `outcome` executes at `now`, if any.
    fn executed_for(&self, outcome: OutcomeKind, action: Action, target: Target, now: Timestamp) -> (r:
        Option<Restriction>)
        ensures
            r == executed_spec(self.log(), outcome, action, target, now),
    {
        match (outcome, action, target) {
            (OutcomeKind::YesExecuted, Action::Restrict { duration }, Target::User(user)) => {
                let current = self.effective_restriction(&user, now);
                let take = supersedes(current, duration);
                proof {
                    lemma_supersedes_takes_effect(self.log(), user, now@, duration, current);
                }
                if take {
                    Some(Restriction { user, duration, start: now })
                } else {
                    None
                }
            },
            _ => None,
        }
    }

    /// Hash the next entry chains from.
    fn tip_hash(&self) -> (r: crate::types::Hash)
        ensures
            r@ == chain_tip(self.genesis_rec(), self.log()),
    {
        let n = self.settlements.len();
        if n == 0 {
            self.genesis.hash()
        } else {
            self.settlements[n - 1].this_hash
        }
    }

    #[verifier::spinoff_prover]
    fn settle(&mut self, id: ProposalId, now: Timestamp) -> (r: Result<Outcome, Error>)
        requires
            old(self).wf(),
        ensures
            final(self).wf(),
            settle_post(*old(self), old(self).props(), id, now, *final(self), r),
    {
        let i = match self.proposals.find(&id) {
            Some(i) => i,
            None => {
                return Err(Error::ProposalNotFound);
            },
        };
        if !matches!(self.proposals.entry_at(i).1.phase, Phase::AwaitingSettlement) {
            return Err(Error::NotYetSettlable);
        }
        let ghost base = *self;
        let ghost s = self.proposals@;
        proof {
            lemma_index_of_key(s, i as int);
            assert(s[i as int].1.wf());
        }
        let proposal = match self.proposals.remove(&id) {
            Some(p) => p,
            None => {
                return Err(Error::ProposalNotFound);
            },
        };
        let ghost p = proposal;
        let ghost cs = proposal.commitments@;
        proof {
            lemma_remove_keeps_proposals_wf(s, i as int);
            lemma_payout_sum_concat(unopened_paid(cs), losers_of(opened_paid(cs), winning_side(settle_outcome(base, p))));
            lemma_payout_sum_nonneg(losers_of(opened_paid(cs), winning_side(settle_outcome(base, p))));
        }
        let (yes_weight, no_weight, opened, forfeitures, pot, free) = Self::tally_commitments(&proposal.commitments)?;
        let outcome = decide(
            yes_weight,
            no_weight,
            self.balances.supply(),
            self.params().threshold_for(proposal.action),
        );
        let winning = match outcome {
            OutcomeKind::YesExecuted => Direction::Yes,
            OutcomeKind::NoDefault => Direction::No,
        };
        let (winners, forfeitures, pot) = Self::split_sides(&opened, winning, forfeitures, pot)?;
        let plan = match split_pot(pot, winners.as_slice()) {
            Ok(plan) => plan,
            Err(e) => {
                return Err(e);
            },
        };
        let free_mints = self.free_mints_for(&free, winning);
        let executed_restriction = self.executed_for(outcome, proposal.action, proposal.target, now);
        let prev_hash = self.tip_hash();
        let entry = SettlementEntry::new(
            prev_hash,
            proposal.id,
            proposal.target,
            proposal.action,
            outcome,
            plan.payouts,
            forfeitures,
            free_mints,
            plan.burned,
            executed_restriction,
        );
        proof {
            let w = winning_side(settle_outcome(base, p));
            assert(outcome == settle_outcome(base, p));
            assert(entry.prev_hash@ == chain_tip(base.genesis_rec(), base.log()));
            assert(entry.forfeitures@ == sort_by_key(settle_forfeits(base, p)));
            assert(entry.free_mints@ == sort_by_key(mints_of(base.cache(), opened_free(p.commitments@), w)));
            assert(entry.executed_restriction == executed_spec(base.log(), outcome, p.action, p.target, now));
            assert(entry.payouts@ == sort_by_key(split_payouts(pot@, winners_of(opened_paid(p.commitments@), w))));
            assert(entry_for(entry, base, p, now, pot@));
        }
        let applied = self.balances.apply_settlement(&entry);
        if let Err(e) = applied {
            self.proposals.insert(id, proposal);
            proof {
                crate::types::lemma_proposal_id_eq(s[i as int].0, id);
                crate::idmap::lemma_remove_then_insert(s, i as int);
                let eff = settlement_effect(base.cache().ledger(), entry);
                assert(p == value_at_key(s, id@));
                assert(pot@ == payout_sum(settle_forfeits(base, p)) as u64);
                assert(entry_for(entry, base, p, now, payout_sum(settle_forfeits(base, p)) as u64));
                assert(eff.1 == Some(e));
                assert(self.cache().models(eff.0));
                assert(self.props() == s);
                assert(self.log() == base.log());
            }
            return Err(e);
        }
        self.proposer_index.remove(&proposal.proposer);
        match self.pair_position(proposal.target, proposal.action) {
            Some(k) => {
                let ghost ta = self.target_action_index@;
                proof {
                    lemma_pair_index(ta, proposal.target, proposal.action, k as int);
                }
                self.target_action_index.remove(k);
                proof {
                    lemma_pairs_unique_remove(ta, k as int);
                }
            },
            None => {},
        }
        let settled = entry.duplicate();
        self.settlements.push(entry);
        proof {
            let eff = settlement_effect(base.cache().ledger(), entry);
            assert(p == value_at_key(s, id@));
            assert(pot@ == payout_sum(settle_forfeits(base, p)) as u64);
            assert(entry_for(entry, base, p, now, payout_sum(settle_forfeits(base, p)) as u64));
            assert(eff.1 is None);
            assert(self.cache().models(eff.0));
            assert(self.props() == s.remove(index_of_key(s, id@)));
            assert(self.log() == base.log().push(entry));
            assert(self.proposer_slots() == remove_key_spec(base.proposer_slots(), p.proposer@));
            assert(self.pair_slots() == pair_removed(base.pair_slots(), p.target, p.action));
            assert(base.cache().consistent() ==> self.cache().consistent());
        }
        Ok(Outcome::Settled(settled))
    }
}

/// One open proposal per proposer and per `(target, action)` pair: in a room
/// whose indexes match its open proposals (every room that `genesis` or
/// `from_log` builds, and that `apply` keeps), no two open proposals share a
/// proposer or a pair, and the proposer index refuses exactly the proposers
/// that have one open.
pub proof fn law_one_open_proposal_per_proposer(room: Room, i: int, j: int, k: Seq<u8>)
    requires
        room.slots_match(),
        0 <= i < j < room.props().len(),
    ensures
        room.props()[i].1.proposer@ != room.props()[j].1.proposer@,
        !(same_target(room.props()[i].1.target, room.props()[j].1.target) && room.props()[i].1.action
            == room.props()[j].1.action),
        has_key(room.proposer_slots(), k) == proposed_by(room.props(), k),
{
}

/// Rebuilding a consistent room from its genesis record and its log gives it
/// back: the chain checks, the replay succeeds, and a room whose cache holds
/// that replay agrees with the live room on every balance, on the supply and on
/// every restriction.
///
/// Every room reached from `Room::genesis` (with founders × token fitting a
/// `u64`) by `tick` and by `apply` calls none of which returned `Overflow` is
/// consistent: `genesis` makes it sound, `tick` keeps that, and `apply` keeps
/// consistency and the escrow whenever it does not return `Overflow`.
/// `from_log` then returns `Ok` with `settlements` equal to the live log and
/// no open proposals.
pub proof fn law_log_rebuilds_room(live: Room, rebuilt: Room, k: Seq<u8>, user: UserId, now: u64)
    requires
        live.consistent(),
        rebuilt.genesis_rec() == live.genesis_rec(),
        rebuilt.log() == live.log(),
        rebuilt.cache().models(replay_from(genesis_ledger(live.genesis_rec().founder_list()), live.log()).0),
    ensures
        chain_check(genesis_digest(live.genesis_rec()), live.log()) is Ok,
        replay_from(genesis_ledger(live.genesis_rec().founder_list()), live.log()).1 is None,
        rebuilt.balance_of(k) == live.balance_of(k),
        rebuilt.cache().supply_spec() == live.cache().supply_spec(),
        has_applicable(rebuilt.log(), user, now) == has_applicable(live.log(), user, now),
{
    let st = replay_from(genesis_ledger(live.genesis_rec().founder_list()), live.log()).0;
    assert(rebuilt.cache().balance_of(k) == get0(st.0, k));
    assert(live.cache().balance_of(k) == get0(st.0, k));
}

/// Advancing the clock keeps every proposal's id, proposer, target and action.
proof fn lemma_tick_keeps_slots(
    props: Proposals,
    proposers: Seq<(UserId, ProposalId)>,
    pairs: Seq<((Target, Action), ProposalId)>,
    now: u64,
)
    ensures
        slots_match_for(props, proposers, pairs) ==> slots_match_for(tick_spec(props, now), proposers, pairs),
        forall|k: Seq<u8>| #[trigger] has_key(tick_spec(props, now), k) == has_key(props, k),
{
    let t = tick_spec(props, now);
    assert(forall|i: int| 0 <= i < props.len() ==> #[trigger] t[i] == (props[i].0, advanced(props[i].1, now)));
    assert forall|k: Seq<u8>| #[trigger] has_key(t, k) == has_key(props, k) by {
        if has_key(t, k) {
            let i = index_of_key(t, k);
            assert(t[i].0 == props[i].0);
        }
        if has_key(props, k) {
            let i = index_of_key(props, k);
            assert(t[i].0 == props[i].0);
        }
    }
    if slots_match_for(props, proposers, pairs) {
        assert forall|i: int, j: int| 0 <= i < j < t.len() implies (#[trigger] t[i]).1.proposer@ != (
        #[trigger] t[j]).1.proposer@ by {
            assert(t[i].1.proposer == props[i].1.proposer && t[j].1.proposer == props[j].1.proposer);
        }
        assert forall|i: int, j: int| 0 <= i < j < t.len() implies !(same_target(
            (#[trigger] t[i]).1.target,
            (#[trigger] t[j]).1.target,
        ) && t[i].1.action == t[j].1.action) by {
            assert(t[i].1.target == props[i].1.target && t[j].1.target == props[j].1.target);
            assert(t[i].1.action == props[i].1.action && t[j].1.action == props[j].1.action);
        }
        assert forall|k: Seq<u8>| #[trigger] proposed_by(t, k) == proposed_by(props, k) by {
            if proposed_by(t, k) {
                let i = choose|i: int| 0 <= i < t.len() && (#[trigger] t[i]).1.proposer@ == k;
                assert(t[i].1.proposer == props[i].1.proposer);
            }
            if proposed_by(props, k) {
                let i = choose|i: int| 0 <= i < props.len() && (#[trigger] props[i]).1.proposer@ == k;
                assert(t[i].1.proposer == props[i].1.proposer);
            }
        }
        assert forall|tg: Target, a: Action| #[trigger] proposed_on(t, tg, a) == proposed_on(props, tg, a) by {
            if proposed_on(t, tg, a) {
                let i = choose|i: int|
                    0 <= i < t.len() && same_target((#[trigger] t[i]).1.target, tg) && t[i].1.action == a;
                assert(t[i].1.target == props[i].1.target && t[i].1.action == props[i].1.action);
            }
            if proposed_on(props, tg, a) {
                let i = choose|i: int|
                    0 <= i < props.len() && same_target((#[trigger] props[i]).1.target, tg) && props[i].1.action == a;
                assert(t[i].1.target == props[i].1.target && t[i].1.action == props[i].1.action);
            }
        }
    }
}

/// Replacing an open proposal by one with the same proposer, target and
/// action keeps the slots.
proof fn lemma_replace_keeps_slots(
    props: Proposals,
    proposers: Seq<(UserId, ProposalId)>,
    pairs: Seq<((Target, Action), ProposalId)>,
    k: Seq<u8>,
    q: Proposal,
)
    requires
        slots_match_for(props, proposers, pairs),
        has_key(props, k),
        q.proposer == value_at_key(props, k).proposer,
        q.target == value_at_key(props, k).target,
        q.action == value_at_key(props, k).action,
    ensures
        slots_match_for(replaced_at(props, k, q), proposers, pairs),
{
    let x = index_of_key(props, k);
    let t = replaced_at(props, k, q);
    assert forall|i: int| 0 <= i < t.len() implies (#[trigger] t[i]).1.proposer == props[i].1.proposer
        && t[i].1.target == props[i].1.target && t[i].1.action == props[i].1.action by {
        if i == x {
            assert(t[i].1 == q);
        } else {
            assert(t[i] == props[i]);
        }
    }
    assert forall|i: int, j: int| 0 <= i < j < t.len() implies (#[trigger] t[i]).1.proposer@ != (
    #[trigger] t[j]).1.proposer@ by {
        assert(t[i].1.proposer == props[i].1.proposer && t[j].1.proposer == props[j].1.proposer);
    }
    assert forall|i: int, j: int| 0 <= i < j < t.len() implies !(same_target(
        (#[trigger] t[i]).1.target,
        (#[trigger] t[j]).1.target,
    ) && t[i].1.action == t[j].1.action) by {
        assert(t[i].1.target == props[i].1.target && t[j].1.target == props[j].1.target);
        assert(t[i].1.action == props[i].1.action && t[j].1.action == props[j].1.action);
    }
    assert forall|key: Seq<u8>| #[trigger] proposed_by(t, key) == proposed_by(props, key) by {
        if proposed_by(t, key) {
            let i = choose|i: int| 0 <= i < t.len() && (#[trigger] t[i]).1.proposer@ == key;
            assert(t[i].1.proposer == props[i].1.proposer);
        }
        if proposed_by(props, key) {
            let i = choose|i: int| 0 <= i < props.len() && (#[trigger] props[i]).1.proposer@ == key;
            assert(t[i].1.proposer == props[i].1.proposer);
        }
    }
    assert forall|tg: Target, a: Action| #[trigger] proposed_on(t, tg, a) == proposed_on(props, tg, a) by {
        if proposed_on(t, tg, a) {
            let i = choose|i: int|
                0 <= i < t.len() && same_target((#[trigger] t[i]).1.target, tg) && t[i].1.action == a;
            assert(t[i].1.target == props[i].1.target && t[i].1.action == props[i].1.action);
        }
        if proposed_on(props, tg, a) {
            let i = choose|i: int|
                0 <= i < props.len() && same_target((#[trigger] props[i]).1.target, tg) && props[i].1.action == a;
            assert(t[i].1.target == props[i].1.target && t[i].1.action == props[i].1.action);
        }
    }
}

/// Opening a proposal under a fresh id, for a proposer and a pair that no
/// open proposal has, keeps the slots once both indexes list it.
#[verifier::spinoff_prover]
proof fn lemma_insert_keeps_slots(
    props: Proposals,
    proposers: Seq<(UserId, ProposalId)>,
    pairs: Seq<((Target, Action), ProposalId)>,
    id: ProposalId,
    p: Proposal,
)
    requires
        slots_match_for(props, proposers, pairs),
        !has_key(props, id@),
        !proposed_by(props, p.proposer@),
        !proposed_on(props, p.target, p.action),
    ensures
        slots_match_for(
            insert_spec(props, id, p),
            insert_spec(proposers, p.proposer, id),
            pairs.push(((p.target, p.action), id)),
        ),
{
    let x = insert_position(props, id@);
    lemma_insert_position_range(props, id@);
    let t = insert_spec(props, id, p);
    assert(t == props.insert(x, (id, p)));
    assert(t[x].1 == p);
    assert(forall|i: int| 0 <= i < x ==> #[trigger] t[i] == props[i]);
    assert(forall|i: int| x < i < t.len() ==> #[trigger] t[i] == props[i - 1]);
    assert forall|i: int, j: int| 0 <= i < j < t.len() implies (#[trigger] t[i]).1.proposer@ != (
    #[trigger] t[j]).1.proposer@ by {
        if i == x {
            assert(t[j] == props[j - 1]);
        } else if j == x {
            assert(t[i] == props[i]);
        } else {
            let i2 = if i < x { i } else { i - 1 };
            let j2 = if j < x { j } else { j - 1 };
            assert(t[i] == props[i2] && t[j] == props[j2]);
        }
    }
    assert forall|i: int, j: int| 0 <= i < j < t.len() implies !(same_target(
        (#[trigger] t[i]).1.target,
        (#[trigger] t[j]).1.target,
    ) && t[i].1.action == t[j].1.action) by {
        if i == x {
            assert(t[j] == props[j - 1]);
            crate::types::lemma_same_target_symmetric(p.target, props[j - 1].1.target);
        } else if j == x {
            assert(t[i] == props[i]);
        } else {
            let i2 = if i < x { i } else { i - 1 };
            let j2 = if j < x { j } else { j - 1 };
            assert(t[i] == props[i2] && t[j] == props[j2]);
        }
    }
    assert forall|key: Seq<u8>| #[trigger] has_key(insert_spec(proposers, p.proposer, id), key)
        == proposed_by(t, key) by {
        lemma_insert_spec_keys(proposers, p.proposer, id, key);
        if proposed_by(t, key) {
            let i = choose|i: int| 0 <= i < t.len() && (#[trigger] t[i]).1.proposer@ == key;
            if i < x {
                assert(t[i] == props[i]);
            } else if i > x {
                assert(t[i] == props[i - 1]);
            }
        }
        if proposed_by(props, key) {
            let i = choose|i: int| 0 <= i < props.len() && (#[trigger] props[i]).1.proposer@ == key;
            if i < x {
                assert(t[i] == props[i]);
            } else {
                assert(t[i + 1] == props[i]);
            }
        }
    }
    let np = pairs.push(((p.target, p.action), id));
    assert forall|tg: Target, a: Action| #[trigger] pair_listed(np, tg, a) == proposed_on(t, tg, a) by {
        if pair_listed(pairs, tg, a) {
            let i = choose|i: int| 0 <= i < pairs.len() && same_target((#[trigger] pairs[i]).0.0, tg) && pairs[i].0.1 == a;
            assert(np[i] == pairs[i]);
            let j = choose|j: int|
                0 <= j < props.len() && same_target((#[trigger] props[j]).1.target, tg) && props[j].1.action == a;
            if j < x {
                assert(t[j] == props[j]);
            } else {
                assert(t[j + 1] == props[j]);
            }
        }
        if pair_listed(np, tg, a) {
            let i = choose|i: int| 0 <= i < np.len() && same_target((#[trigger] np[i]).0.0, tg) && np[i].0.1 == a;
            if i < pairs.len() {
                assert(np[i] == pairs[i]);
                assert(pair_listed(pairs, tg, a));
            } else {
                assert(same_target(t[x].1.target, tg) && t[x].1.action == a);
            }
        }
        if proposed_on(t, tg, a) {
            let i = choose|i: int| 0 <= i < t.len() && same_target((#[trigger] t[i]).1.target, tg) && t[i].1.action == a;
            if i == x {
                assert(np[pairs.len() as int] == ((p.target, p.action), id));
                assert(same_target(np[pairs.len() as int].0.0, tg));
            } else {
                let i2 = if i < x { i } else { i - 1 };
                assert(t[i] == props[i2]);
                assert(proposed_on(props, tg, a));
                let j = choose|j: int| 0 <= j < pairs.len() && same_target((#[trigger] pairs[j]).0.0, tg) && pairs[j].0.1 == a;
                assert(np[j] == pairs[j]);
            }
        }
    }
}

/// Settling the proposal at `i` keeps the slots once both indexes drop it.
#[verifier::spinoff_prover]
proof fn lemma_remove_keeps_slots(
    props: Proposals,
    proposers: Seq<(UserId, ProposalId)>,
    pairs: Seq<((Target, Action), ProposalId)>,
    x: int,
)
    requires
        slots_match_for(props, proposers, pairs),
        0 <= x < props.len(),
        strictly_sorted(proposers),
        pairs_unique(pairs),
    ensures
        slots_match_for(
            props.remove(x),
            remove_key_spec(proposers, props[x].1.proposer@),
            pair_removed(pairs, props[x].1.target, props[x].1.action),
        ),
{
    let p = props[x].1;
    let t = props.remove(x);
    assert(forall|i: int| 0 <= i < x ==> #[trigger] t[i] == props[i]);
    assert(forall|i: int| x <= i < t.len() ==> #[trigger] t[i] == props[i + 1]);
    assert forall|i: int, j: int| 0 <= i < j < t.len() implies (#[trigger] t[i]).1.proposer@ != (
    #[trigger] t[j]).1.proposer@ by {
        let i2 = if i < x { i } else { i + 1 };
        let j2 = if j < x { j } else { j + 1 };
        assert(t[i] == props[i2] && t[j] == props[j2]);
    }
    assert forall|i: int, j: int| 0 <= i < j < t.len() implies !(same_target(
        (#[trigger] t[i]).1.target,
        (#[trigger] t[j]).1.target,
    ) && t[i].1.action == t[j].1.action) by {
        let i2 = if i < x { i } else { i + 1 };
        let j2 = if j < x { j } else { j + 1 };
        assert(t[i] == props[i2] && t[j] == props[j2]);
    }
    assert forall|key: Seq<u8>| #[trigger] has_key(remove_key_spec(proposers, p.proposer@), key)
        == proposed_by(t, key) by {
        lemma_remove_key_spec_keys(proposers, p.proposer@, key);
        if proposed_by(t, key) {
            let i = choose|i: int| 0 <= i < t.len() && (#[trigger] t[i]).1.proposer@ == key;
            let i2 = if i < x { i } else { i + 1 };
            assert(t[i] == props[i2]);
            assert(proposed_by(props, key));
            if i2 < x {
                assert(props[i2].1.proposer@ != props[x].1.proposer@);
            } else {
                assert(props[x].1.proposer@ != props[i2].1.proposer@);
            }
        }
        if proposed_by(props, key) && key != p.proposer@ {
            let i = choose|i: int| 0 <= i < props.len() && (#[trigger] props[i]).1.proposer@ == key;
            if i < x {
                assert(t[i] == props[i]);
            } else {
                assert(i != x);
                assert(t[i - 1] == props[i]);
            }
        }
    }
    assert(proposed_on(props, p.target, p.action)) by {
        assert(same_target(props[x].1.target, p.target));
    }
    let j0 = pair_index(pairs, p.target, p.action);
    let np = pair_removed(pairs, p.target, p.action);
    assert(pair_listed(pairs, p.target, p.action));
    assert(np == pairs.remove(j0));
    assert(0 <= j0 < pairs.len() && same_target(pairs[j0].0.0, p.target) && pairs[j0].0.1 == p.action);
    assert forall|tg: Target, a: Action| #[trigger] pair_listed(np, tg, a) == proposed_on(t, tg, a) by {
        if pair_listed(np, tg, a) {
            let i = choose|i: int| 0 <= i < np.len() && same_target((#[trigger] np[i]).0.0, tg) && np[i].0.1 == a;
            let i2 = if i < j0 { i } else { i + 1 };
            assert(np[i] == pairs[i2]);
            assert(pair_listed(pairs, tg, a));
            let j = choose|j: int|
                0 <= j < props.len() && same_target((#[trigger] props[j]).1.target, tg) && props[j].1.action == a;
            if j == x {
                // the same pair is listed twice in the pair index
                if i2 < j0 {
                    assert(!(same_target(pairs[i2].0.0, pairs[j0].0.0) && pairs[i2].0.1 == pairs[j0].0.1));
                } else {
                    assert(!(same_target(pairs[j0].0.0, pairs[i2].0.0) && pairs[j0].0.1 == pairs[i2].0.1));
                }
                assert(false);
            } else if j < x {
                assert(t[j] == props[j]);
            } else {
                assert(t[j - 1] == props[j]);
            }
        }
        if proposed_on(t, tg, a) {
            let i = choose|i: int| 0 <= i < t.len() && same_target((#[trigger] t[i]).1.target, tg) && t[i].1.action == a;
            let i2 = if i < x { i } else { i + 1 };
            assert(t[i] == props[i2]);
            assert(proposed_on(props, tg, a));
            assert(pair_listed(pairs, tg, a));
            let j = choose|j: int| 0 <= j < pairs.len() && same_target((#[trigger] pairs[j]).0.0, tg) && pairs[j].0.1 == a;
            if j == j0 {
                // then the settled proposal and props[i2] share a pair
                crate::types::lemma_same_target_symmetric(pairs[j0].0.0, tg);
                crate::types::lemma_same_target_transitive(props[i2].1.target, tg, pairs[j0].0.0);
                crate::types::lemma_same_target_transitive(props[i2].1.target, pairs[j0].0.0, p.target);
                crate::types::lemma_same_target_symmetric(props[i2].1.target, p.target);
                if i2 < x {
                    assert(!(same_target(props[i2].1.target, props[x].1.target) && props[i2].1.action == props[x].1.action));
                } else {
                    assert(!(same_target(props[x].1.target, props[i2].1.target) && props[x].1.action == props[i2].1.action));
                }
                assert(false);
            } else if j < j0 {
                assert(np[j] == pairs[j]);
                assert(same_target(np[j].0.0, tg) && np[j].0.1 == a);
            } else {
                assert(np[j - 1] == pairs[j]);
                assert(same_target(np[j - 1].0.0, tg) && np[j - 1].0.1 == a);
            }
        }
    }
}

/// Every command keeps the slots, unless it opens a proposal under an id that
/// is already open or fails after dropping the proposal it settles.
#[verifier::spinoff_prover]
proof fn lemma_post_keeps_slots(
    base: Room,
    props: Proposals,
    cmd: Command,
    now: Timestamp,
    new: Room,
    r: Result<Outcome, Error>,
)
    requires
        base.wf(),
        entries_wf(props),
        command_post(base, props, cmd, now, new, r),
        slots_match_for(props, base.proposer_slots(), base.pair_slots()),
        opens_fresh_id(props, cmd),
        r is Ok || new.props() == props,
    ensures
        slots_match_for(new.props(), new.proposer_slots(), new.pair_slots()),
{
    match cmd {
        Command::OpenProposal { proposer, target, action, commit } => {
            if open_proposal_check(base, props, proposer, target, action, commit) is Ok {
                let (id, p) = choose|id: ProposalId, p: Proposal|
                    {
                        &&& r == Ok::<Outcome, Error>(Outcome::ProposalOpened { id })
                        &&& id == p.id
                        &&& fresh_proposal(p, proposer, target, action, commit, now, base.genesis_rec().param_set())
                        &&& #[trigger] new.props() == insert_spec(props, id, p)
                        &&& new.proposer_slots() == insert_spec(base.proposer_slots(), proposer, id)
                        &&& new.pair_slots() == base.pair_slots().push(((target, action), id))
                        &&& new.genesis_rec() == base.genesis_rec()
                        &&& new.log() == base.log()
                        &&& new.cache() == base.cache()
                    };
                assert(!has_key(base.proposer_slots(), proposer@));
                assert(!pair_listed(base.pair_slots(), target, action));
                lemma_insert_keeps_slots(props, base.proposer_slots(), base.pair_slots(), id, p);
            }
        },
        Command::CommitPaid { user, proposal, commit } => {
            if commit_paid_check(base, props, user, proposal, commit) is Ok {
                let q = choose|q: Proposal|
                    {
                        &&& Proposal::same_header(q, value_at_key(props, proposal@))
                        &&& q.commitments@ == insert_spec(
                            value_at_key(props, proposal@).commitments@,
                            user,
                            fresh_commitment(commit.hash, CommitmentKind::Paid { amount: commit.amount }),
                        )
                        &&& #[trigger] new.props() == replaced_at(props, proposal@, q)
                    };
                lemma_replace_keeps_slots(props, base.proposer_slots(), base.pair_slots(), proposal@, q);
            }
        },
        Command::CommitFree { user, proposal, commit } => {
            if commit_free_check(base, props, user, proposal) is Ok {
                let q = choose|q: Proposal|
                    {
                        &&& Proposal::same_header(q, value_at_key(props, proposal@))
                        &&& q.commitments@ == insert_spec(
                            value_at_key(props, proposal@).commitments@,
                            user,
                            fresh_commitment(commit.hash, CommitmentKind::Free),
                        )
                        &&& #[trigger] new.props() == replaced_at(props, proposal@, q)
                    };
                lemma_replace_keeps_slots(props, base.proposer_slots(), base.pair_slots(), proposal@, q);
            }
        },
        Command::CommitToReveal { user, proposal, commit } => {
            if reveal_check(props, user, proposal) is Ok {
                let p = value_at_key(props, proposal@);
                let i = index_of_key(p.commitments@, user@);
                let q = choose|q: Proposal|
                    {
                        &&& Proposal::same_header(q, p)
                        &&& q.commitments@ == p.commitments@.update(
                            i,
                            (
                                p.commitments@[i].0,
                                crate::proposal::UserCommitment {
                                    reveal_hash: Some(commit.hash),
                                    ..value_at_key(p.commitments@, user@)
                                },
                            ),
                        )
                        &&& #[trigger] new.props() == replaced_at(props, proposal@, q)
                    };
                lemma_replace_keeps_slots(props, base.proposer_slots(), base.pair_slots(), proposal@, q);
            }
        },
        Command::Open { user, proposal, opening } => {
            if open_check_room(props, user, proposal, opening) is Ok {
                let p = value_at_key(props, proposal@);
                let i = index_of_key(p.commitments@, user@);
                let q = choose|q: Proposal|
                    {
                        &&& Proposal::same_header(q, p)
                        &&& q.commitments@ == p.commitments@.update(
                            i,
                            (
                                p.commitments@[i].0,
                                crate::proposal::UserCommitment {
                                    opened: Some(opening.direction),
                                    ..value_at_key(p.commitments@, user@)
                                },
                            ),
                        )
                        &&& #[trigger] new.props() == replaced_at(props, proposal@, q)
                    };
                lemma_replace_keeps_slots(props, base.proposer_slots(), base.pair_slots(), proposal@, q);
            }
        },
        Command::Settle { proposal } => {
            if has_key(props, proposal@) && value_at_key(props, proposal@).phase == Phase::AwaitingSettlement
                && payout_sum(settle_forfeits(base, value_at_key(props, proposal@))) <= u64::MAX {
                let p = value_at_key(props, proposal@);
                let pot = payout_sum(settle_forfeits(base, p)) as u64;
                let e = choose|e: SettlementEntry|
                    {
                        let eff = settlement_effect(base.cache().ledger(), e);
                        &&& #[trigger] entry_for(e, base, p, now, pot)
                        &&& new.cache().models(eff.0)
                        &&& new.genesis_rec() == base.genesis_rec()
                        &&& (eff.1 matches Some(err) ==> {
                            &&& r == Err::<Outcome, Error>(err)
                            &&& new.props() == props
                            &&& new.log() == base.log()
                            &&& new.proposer_slots() == base.proposer_slots()
                            &&& new.pair_slots() == base.pair_slots()
                        })
                        &&& (eff.1 is None ==> {
                            &&& r matches Ok(Outcome::Settled(x)) && same_entry(x, e)
                            &&& new.props() == props.remove(index_of_key(props, proposal@))
                            &&& new.log() == base.log().push(e)
                            &&& new.proposer_slots() == remove_key_spec(base.proposer_slots(), p.proposer@)
                            &&& new.pair_slots() == pair_removed(base.pair_slots(), p.target, p.action)
                            &&& (base.cache().consistent() ==> new.cache().consistent())
                        })
                    };
                if settlement_effect(base.cache().ledger(), e).1 is None {
                    let x = index_of_key(props, proposal@);
                    lemma_remove_keeps_slots(props, base.proposer_slots(), base.pair_slots(), x);
                }
            } else if has_key(props, proposal@) && value_at_key(props, proposal@).phase
                == Phase::AwaitingSettlement {
                let x = index_of_key(props, proposal@);
                assert(props.remove(x).len() == props.len() - 1);
            }
        },
    }
}

/// A first commitment of `amount` that passes the balance check keeps every
/// user's locks within their balance.
proof fn lemma_commit_keeps_escrow(
    props: Proposals,
    cache: Balances,
    x: int,
    q: Proposal,
    user: UserId,
    c: UserCommitment,
)
    requires
        escrow_for(props, cache),
        proposals_wf(props),
        0 <= x < props.len(),
        q.wf(),
        q.commitments@ == insert_spec(props[x].1.commitments@, user, c),
        !has_key(props[x].1.commitments@, user@),
        locked_spec(c) <= sat_sub(cache.balance_of(user@), locks_total(props, user@)),
        locked_spec(c) > 0 || c.kind is Free,
    ensures
        escrow_for(props.update(x, (props[x].0, q)), cache),
{
    let t = props.update(x, (props[x].0, q));
    assert(props[x].1.wf());
    assert forall|k: Seq<u8>| #[trigger] locks_sum(t, k) <= cache.balance_of(k) by {
        lemma_locks_update(props, x, (props[x].0, q), k);
        lemma_locked_in_fresh(props[x].1.commitments@, user, c, k);
        if k == user@ && c.kind is Paid {
            lemma_locks_total_exact(props, k);
        }
    }
}

/// Changing a commitment without changing its kind keeps the escrow.
proof fn lemma_same_kind_keeps_escrow(props: Proposals, cache: Balances, x: int, q: Proposal, i: int, c: UserCommitment)
    requires
        escrow_for(props, cache),
        proposals_wf(props),
        0 <= x < props.len(),
        0 <= i < props[x].1.commitments@.len(),
        c.kind == props[x].1.commitments@[i].1.kind,
        q.commitments@ == props[x].1.commitments@.update(i, (props[x].1.commitments@[i].0, c)),
    ensures
        escrow_for(props.update(x, (props[x].0, q)), cache),
{
    let t = props.update(x, (props[x].0, q));
    assert(props[x].1.wf());
    assert forall|k: Seq<u8>| #[trigger] locks_sum(t, k) <= cache.balance_of(k) by {
        lemma_locks_update(props, x, (props[x].0, q), k);
        lemma_locked_in_same_kind(props[x].1.commitments@, i, c, k);
    }
}

/// Settling the proposal at `x` with entry `e` whose effect succeeds keeps
/// every user's locks within their new balance.
proof fn lemma_settle_keeps_escrow(base: Room, props: Proposals, x: int, e: SettlementEntry, now: Timestamp, pot: u64, cache: Balances)
    requires
        escrow_for(props, base.cache()),
        proposals_wf(props),
        0 <= x < props.len(),
        entry_for(e, base, props[x].1, now, pot),
        settlement_effect(base.cache().ledger(), e).1 is None,
        cache.models(settlement_effect(base.cache().ledger(), e).0),
    ensures
        escrow_for(props.remove(x), cache),
{
    let p = props[x].1;
    let st = base.cache().ledger();
    let w = winning_side(settle_outcome(base, p));
    assert(p.wf());
    base.cache().lemma_ledger();
    let burn = crate::balances::implied_burn_spec(e);
    assert(burn is Ok && burn->Ok_0 == e.burned@);
    let f = crate::balances::forfeit_all(st, e.forfeitures@);
    assert(f.1 is None);
    let p2 = crate::balances::payout_all(f.0, e.payouts@);
    assert(p2.1 is None);
    let m = crate::balances::mint_all(p2.0, e.free_mints@);
    assert(m == settlement_effect(st, e));
    assert forall|k: Seq<u8>| #[trigger] locks_sum(props.remove(x), k) <= cache.balance_of(k) by {
        lemma_locks_remove(props, x, k);
        lemma_forfeit_all_debits(st, e.forfeitures@, k);
        lemma_payout_all_credits(f.0, e.payouts@, k);
        crate::balances::law_mint_sets_not_adds(p2.0, e.free_mints@, k);
        lemma_amount_for_sort(settle_forfeits(base, p), k);
        lemma_amount_for_concat(unopened_paid(p.commitments@), losers_of(opened_paid(p.commitments@), w), k);
        lemma_forfeits_within_locks(p.commitments@, w, k);
        assert(cache.balance_of(k) == crate::balances::get0(m.0.0, k));
        assert(base.cache().balance_of(k) == crate::balances::get0(st.0, k));
    }
}

/// Opening a proposal that passes the balance check keeps the escrow.
#[verifier::spinoff_prover]
proof fn lemma_open_post_keeps_escrow(
    base: Room,
    props: Proposals,
    proposer: UserId,
    target: Target,
    action: Action,
    commit: PaidCommitment,
    now: Timestamp,
    new: Room,
    r: Result<Outcome, Error>,
)
    requires
        open_proposal_post(base, props, proposer, target, action, commit, now, new, r),
        escrow_for(props, base.cache()),
    ensures
        escrow_for(new.props(), new.cache()),
{
    if open_proposal_check(base, props, proposer, target, action, commit) is Ok {
        let (id, p) = choose|id: ProposalId, p: Proposal|
            {
                &&& r == Ok::<Outcome, Error>(Outcome::ProposalOpened { id })
                &&& id == p.id
                &&& fresh_proposal(p, proposer, target, action, commit, now, base.genesis_rec().param_set())
                &&& #[trigger] new.props() == insert_spec(props, id, p)
                &&& new.proposer_slots() == insert_spec(base.proposer_slots(), proposer, id)
                &&& new.pair_slots() == base.pair_slots().push(((target, action), id))
                &&& new.genesis_rec() == base.genesis_rec()
                &&& new.log() == base.log()
                &&& new.cache() == base.cache()
            };
        let c = fresh_commitment(commit.hash, CommitmentKind::Paid { amount: commit.amount });
        assert forall|k: Seq<u8>| #[trigger] locks_sum(new.props(), k) <= new.cache().balance_of(k) by {
            lemma_locked_in_single(proposer, c, k);
            lemma_locks_total_exact(props, k);
            if has_key(props, id@) {
                let x = index_of_key(props, id@);
                lemma_locks_update(props, x, (id, p), k);
            } else {
                lemma_insert_position_range(props, id@);
                lemma_locks_insert(props, insert_position(props, id@), (id, p), k);
            }
        }
    }
}

/// Settling keeps the escrow, unless it fails after the cache has moved.
#[verifier::spinoff_prover]
proof fn lemma_settle_post_keeps_escrow(
    base: Room,
    props: Proposals,
    proposal: ProposalId,
    now: Timestamp,
    new: Room,
    r: Result<Outcome, Error>,
)
    requires
        proposals_wf(props),
        settle_post(base, props, proposal, now, new, r),
        escrow_for(props, base.cache()),
        r is Ok || new.cache() == base.cache(),
    ensures
        escrow_for(new.props(), new.cache()),
{
    if has_key(props, proposal@) && value_at_key(props, proposal@).phase == Phase::AwaitingSettlement {
        let x = index_of_key(props, proposal@);
        let p = value_at_key(props, proposal@);
        if payout_sum(settle_forfeits(base, p)) <= u64::MAX {
            let pot = payout_sum(settle_forfeits(base, p)) as u64;
            let e = choose|e: SettlementEntry|
                {
                    let eff = settlement_effect(base.cache().ledger(), e);
                    &&& #[trigger] entry_for(e, base, p, now, pot)
                    &&& new.cache().models(eff.0)
                    &&& new.genesis_rec() == base.genesis_rec()
                    &&& (eff.1 matches Some(err) ==> {
                        &&& r == Err::<Outcome, Error>(err)
                        &&& new.props() == props
                        &&& new.log() == base.log()
                        &&& new.proposer_slots() == base.proposer_slots()
                        &&& new.pair_slots() == base.pair_slots()
                    })
                    &&& (eff.1 is None ==> {
                        &&& r matches Ok(Outcome::Settled(x)) && same_entry(x, e)
                        &&& new.props() == props.remove(index_of_key(props, proposal@))
                        &&& new.log() == base.log().push(e)
                        &&& new.proposer_slots() == remove_key_spec(base.proposer_slots(), p.proposer@)
                        &&& new.pair_slots() == pair_removed(base.pair_slots(), p.target, p.action)
                        &&& (base.cache().consistent() ==> new.cache().consistent())
                    })
                };
            if settlement_effect(base.cache().ledger(), e).1 is None {
                lemma_settle_keeps_escrow(base, props, x, e, now, pot, new.cache());
            }
        } else {
            assert forall|k: Seq<u8>| #[trigger] locks_sum(new.props(), k) <= new.cache().balance_of(k) by {
                lemma_locks_remove(props, x, k);
            }
        }
    }
}

/// Every command keeps each user's locks within their balance, unless it
/// fails after the cache has moved.
#[verifier::spinoff_prover]
proof fn lemma_post_keeps_escrow(
    base: Room,
    props: Proposals,
    cmd: Command,
    now: Timestamp,
    new: Room,
    r: Result<Outcome, Error>,
)
    requires
        new.wf(),
        proposals_wf(props),
        command_post(base, props, cmd, now, new, r),
        escrow_for(props, base.cache()),
        r is Ok || new.cache() == base.cache(),
    ensures
        escrow_for(new.props(), new.cache()),
{
    assert(proposals_wf(new.props()));
    match cmd {
        Command::OpenProposal { proposer, target, action, commit } => {
            lemma_open_post_keeps_escrow(base, props, proposer, target, action, commit, now, new, r);
        },
        Command::CommitPaid { user, proposal, commit } => {
            if commit_paid_check(base, props, user, proposal, commit) is Ok {
                let q = choose|q: Proposal|
                    {
                        &&& Proposal::same_header(q, value_at_key(props, proposal@))
                        &&& q.commitments@ == insert_spec(
                            value_at_key(props, proposal@).commitments@,
                            user,
                            fresh_commitment(commit.hash, CommitmentKind::Paid { amount: commit.amount }),
                        )
                        &&& #[trigger] new.props() == replaced_at(props, proposal@, q)
                    };
                let x = index_of_key(props, proposal@);
                assert(new.props()[x].1 == q);
                lemma_commit_keeps_escrow(
                    props,
                    base.cache(),
                    x,
                    q,
                    user,
                    fresh_commitment(commit.hash, CommitmentKind::Paid { amount: commit.amount }),
                );
            }
        },
        Command::CommitFree { user, proposal, commit } => {
            if commit_free_check(base, props, user, proposal) is Ok {
                let q = choose|q: Proposal|
                    {
                        &&& Proposal::same_header(q, value_at_key(props, proposal@))
                        &&& q.commitments@ == insert_spec(
                            value_at_key(props, proposal@).commitments@,
                            user,
                            fresh_commitment(commit.hash, CommitmentKind::Free),
                        )
                        &&& #[trigger] new.props() == replaced_at(props, proposal@, q)
                    };
                let x = index_of_key(props, proposal@);
                assert(new.props()[x].1 == q);
                lemma_commit_keeps_escrow(
                    props,
                    base.cache(),
                    x,
                    q,
                    user,
                    fresh_commitment(commit.hash, CommitmentKind::Free),
                );
            }
        },
        Command::CommitToReveal { user, proposal, commit } => {
            if reveal_check(props, user, proposal) is Ok {
                let p = value_at_key(props, proposal@);
                let i = index_of_key(p.commitments@, user@);
                let c = crate::proposal::UserCommitment {
                    reveal_hash: Some(commit.hash),
                    ..value_at_key(p.commitments@, user@)
                };
                let q = choose|q: Proposal|
                    {
                        &&& Proposal::same_header(q, p)
                        &&& q.commitments@ == p.commitments@.update(i, (p.commitments@[i].0, c))
                        &&& #[trigger] new.props() == replaced_at(props, proposal@, q)
                    };
                let x = index_of_key(props, proposal@);
                lemma_same_kind_keeps_escrow(props, base.cache(), x, q, i, c);
            }
        },
        Command::Open { user, proposal, opening } => {
            if open_check_room(props, user, proposal, opening) is Ok {
                let p = value_at_key(props, proposal@);
                let i = index_of_key(p.commitments@, user@);
                let c = crate::proposal::UserCommitment {
                    opened: Some(opening.direction),
                    ..value_at_key(p.commitments@, user@)
                };
                let q = choose|q: Proposal|
                    {
                        &&& Proposal::same_header(q, p)
                        &&& q.commitments@ == p.commitments@.update(i, (p.commitments@[i].0, c))
                        &&& #[trigger] new.props() == replaced_at(props, proposal@, q)
                    };
                let x = index_of_key(props, proposal@);
                lemma_same_kind_keeps_escrow(props, base.cache(), x, q, i, c);
            }
        },
        Command::Settle { proposal } => {
            lemma_settle_post_keeps_escrow(base, props, proposal, now, new, r);
        },
    }
}

/// A proposal is due for settlement and the supply has room for a free mint
/// per commitment on it.
pub open spec fn settle_due(props: Proposals, id: ProposalId, supply: u64) -> bool {
    &&& has_key(props, id@)
    &&& value_at_key(props, id@).phase == Phase::AwaitingSettlement
    &&& supply + TOKEN * value_at_key(props, id@).commitments@.len() <= u64::MAX
}

proof fn lemma_opened_free_len(cs: Commitments)
    ensures
        opened_free(cs).len() <= cs.len(),
    decreases cs.len(),
{
    if cs.len() > 0 {
        lemma_opened_free_len(cs.drop_last());
    }
}

proof fn lemma_mints_of_len(cache: Balances, of: Seq<(UserId, Direction)>, w: Direction)
    ensures
        mints_of(cache, of, w).len() <= of.len(),
    decreases of.len(),
{
    if of.len() > 0 {
        lemma_mints_of_len(cache, of.drop_last(), w);
    }
}

/// An entry whose forfeits fit the balances and the supply, whose payouts
/// stay within its pot and whose mints fit the supply applies without error.
#[verifier::spinoff_prover]
proof fn lemma_entry_applies(
    cache: Balances,
    ff: Seq<Payout>,
    shares: Seq<Payout>,
    mints: Seq<UserId>,
    e: SettlementEntry,
)
    requires
        cache.wf(),
        cache.consistent(),
        forall|k: Seq<u8>| #[trigger] amount_for(ff, k) <= cache.balance_of(k),
        payout_sum(ff) <= cache.supply_spec(),
        payout_sum(shares) <= payout_sum(ff),
        e.forfeitures@ == sort_by_key(ff),
        e.payouts@ == sort_by_key(shares),
        e.free_mints@ == sort_by_key(mints),
        e.burned@ == payout_sum(ff) - payout_sum(shares),
    ensures
        cache.supply_spec() + TOKEN * mints.len() <= u64::MAX ==> settlement_effect(cache.ledger(), e).1 is None,
        settlement_effect(cache.ledger(), e).1 is None || settlement_effect(cache.ledger(), e).1 == Some(
            Error::Overflow,
        ),
{
    let st = cache.ledger();
    cache.lemma_ledger();
    lemma_payout_sum_sort(ff);
    lemma_payout_sum_sort(shares);
    lemma_amount_for_bounds(shares, Seq::<u8>::empty());
    assert(crate::balances::implied_burn_spec(e) == Ok::<u64, Error>(e.burned@));
    assert forall|k: Seq<u8>| #[trigger] amount_for(e.forfeitures@, k) <= crate::balances::get0(st.0, k) by {
        lemma_amount_for_sort(ff, k);
    }
    lemma_forfeit_all_succeeds(st, e.forfeitures@);
    let f = crate::balances::forfeit_all(st, e.forfeitures@);
    assert forall|k: Seq<u8>| #[trigger] crate::balances::get0(f.0.0, k) + payout_sum(e.payouts@) <= u64::MAX by {
        lemma_forfeit_all_debits(st, e.forfeitures@, k);
        lemma_amount_for_sort(ff, k);
        lemma_without(ff, k, k);
        assert forall|k2: Seq<u8>| #[trigger] amount_for(without(ff, k), k2) <= cache.balance_of(k2) by {
            lemma_without(ff, k, k2);
        }
        cache.lemma_totals_beside(without(ff, k), k);
    }
    lemma_payout_all_succeeds(f.0, e.payouts@);
    let p2 = crate::balances::payout_all(f.0, e.payouts@);
    lemma_sort_len(mints);
    crate::escrow::lemma_mint_all_fails_only_on_overflow(p2.0, e.free_mints@);
    if cache.supply_spec() + TOKEN * mints.len() <= u64::MAX {
        lemma_mint_all_succeeds(p2.0, e.free_mints@);
    }
}

/// Under the escrow, what settling the proposal at `x` forfeits from each
/// user fits their balance.
proof fn lemma_forfeits_fit(props: Proposals, cache: Balances, x: int, w: Direction)
    requires
        escrow_for(props, cache),
        proposals_wf(props),
        0 <= x < props.len(),
    ensures
        forall|k: Seq<u8>|
            #[trigger] amount_for(
                unopened_paid(props[x].1.commitments@) + losers_of(opened_paid(props[x].1.commitments@), w),
                k,
            ) <= cache.balance_of(k),
{
    let cs = props[x].1.commitments@;
    assert(props[x].1.wf());
    assert forall|k: Seq<u8>|
        #[trigger] amount_for(unopened_paid(cs) + losers_of(opened_paid(cs), w), k) <= cache.balance_of(k) by {
        lemma_amount_for_concat(unopened_paid(cs), losers_of(opened_paid(cs), w), k);
        lemma_forfeits_within_locks(cs, w, k);
        lemma_locks_remove(props, x, k);
        lemma_locks_total_exact(props.remove(x), k);
    }
}

/// With the escrow and a consistent cache, settling a due proposal cannot
/// fail: the pot fits in a `u64`, and every entry it may record applies to
/// the balances without error.
#[verifier::spinoff_prover]
proof fn lemma_settle_succeeds(base: Room, props: Proposals, x: int, now: Timestamp)
    requires
        base.cache().wf(),
        base.cache().consistent(),
        escrow_for(props, base.cache()),
        proposals_wf(props),
        0 <= x < props.len(),
    ensures
        payout_sum(settle_forfeits(base, props[x].1)) <= base.cache().supply_spec(),
        forall|e: SettlementEntry|
            #[trigger] entry_for(e, base, props[x].1, now, payout_sum(settle_forfeits(base, props[x].1)) as u64)
                ==> (settlement_effect(base.cache().ledger(), e).1 is None || settlement_effect(
                base.cache().ledger(),
                e,
            ).1 == Some(Error::Overflow)),
        base.cache().supply_spec() + TOKEN * props[x].1.commitments@.len() <= u64::MAX ==> forall|
            e: SettlementEntry,
        |
            #[trigger] entry_for(e, base, props[x].1, now, payout_sum(settle_forfeits(base, props[x].1)) as u64)
                ==> settlement_effect(base.cache().ledger(), e).1 is None,
{
    let p = props[x].1;
    let cs = p.commitments@;
    let w = winning_side(settle_outcome(base, p));
    let ff = settle_forfeits(base, p);
    let cache = base.cache();
    lemma_forfeits_fit(props, cache, x, w);
    cache.lemma_totals_within_supply(ff);
    lemma_amount_for_bounds(ff, Seq::<u8>::empty());
    let pot = payout_sum(ff) as u64;
    assert(pot == payout_sum(ff));
    let winners = winners_of(opened_paid(cs), w);
    let mints = mints_of(cache, opened_free(cs), w);
    lemma_mints_of_len(cache, opened_free(cs), w);
    lemma_opened_free_len(cs);
    crate::payout::law_split_conserves_pot(pot, winners);
    assert forall|e: SettlementEntry| #[trigger] entry_for(e, base, p, now, pot) implies (settlement_effect(
        cache.ledger(),
        e,
    ).1 is None || settlement_effect(cache.ledger(), e).1 == Some(Error::Overflow)) && (
    cache.supply_spec() + TOKEN * cs.len() <= u64::MAX ==> settlement_effect(cache.ledger(), e).1 is None) by {
        lemma_entry_applies(cache, ff, split_payouts(pot, winners), mints, e);
    }
}

/// Each opened paid stake comes from a paid commitment that was opened on
/// that side.
proof fn lemma_opened_paid_users(cs: Commitments, i: int)
    requires
        entries_wf(cs),
        0 <= i < opened_paid(cs).len(),
    ensures
        has_key(cs, opened_paid(cs)[i].0@),
        value_at_key(cs, opened_paid(cs)[i].0@).kind is Paid,
        value_at_key(cs, opened_paid(cs)[i].0@).opened == Some(opened_paid(cs)[i].2),
    decreases cs.len(),
{
    let n = cs.len() - 1;
    let init = cs.drop_last();
    let prev = opened_paid(init);
    assert(forall|j: int| 0 <= j < init.len() ==> #[trigger] init[j] == cs[j]);
    assert(entries_wf(init)) by {
        assert forall|a: int, b: int| 0 <= a < b < init.len() implies crate::order::lex_lt(
            #[trigger] init[a].0.key(),
            #[trigger] init[b].0.key(),
        ) by {
            assert(init[a] == cs[a] && init[b] == cs[b]);
        }
    }
    if i < prev.len() {
        lemma_opened_paid_users(init, i);
        let k = prev[i].0@;
        let j = index_of_key(init, k);
        lemma_index_of_key(init, j);
        lemma_index_of_key(cs, j);
        assert(opened_paid(cs)[i] == prev[i]);
    } else {
        lemma_index_of_key(cs, n);
        assert(cs[n] == cs.last());
    }
}

/// Each winning stake is an opened stake on the winning side.
proof fn lemma_winners_users(op: Seq<(UserId, Amount, Direction)>, w: Direction, i: int)
    requires
        0 <= i < winners_of(op, w).len(),
    ensures
        exists|j: int| 0 <= j < op.len() && #[trigger] op[j].0 == winners_of(op, w)[i].0 && op[j].2 == w,
    decreases op.len(),
{
    let init = op.drop_last();
    let prev = winners_of(init, w);
    if i < prev.len() {
        lemma_winners_users(init, w, i);
        let j = choose|j: int| 0 <= j < init.len() && #[trigger] init[j].0 == prev[i].0 && init[j].2 == w;
        assert(op[j] == init[j]);
        if op.last().2 == w {
            assert(winners_of(op, w)[i] == prev[i]);
        }
    } else {
        assert(op[op.len() - 1] == op.last());
    }
}

/// Free committers never share the pot: every share of a settlement goes to
/// a user whose commitment on the proposal was paid and opened on the
/// winning side.
pub proof fn law_free_committers_never_share_pot(cs: Commitments, w: Direction, pot: u64, i: int)
    requires
        entries_wf(cs),
        0 <= i < split_payouts(pot, winners_of(opened_paid(cs), w)).len(),
    ensures
        has_key(cs, split_payouts(pot, winners_of(opened_paid(cs), w))[i].user@),
        value_at_key(cs, split_payouts(pot, winners_of(opened_paid(cs), w))[i].user@).kind is Paid,
        value_at_key(cs, split_payouts(pot, winners_of(opened_paid(cs), w))[i].user@).opened == Some(w),
{
    let op = opened_paid(cs);
    let win = winners_of(op, w);
    crate::payout::lemma_shares_go_to_winners(pot, win, i);
    let j = choose|j: int| 0 <= j < win.len() && #[trigger] win[j].0 == split_payouts(pot, win)[i].user;
    lemma_winners_users(op, w, j);
    let l = choose|l: int| 0 <= l < op.len() && #[trigger] op[l].0 == win[j].0 && op[l].2 == w;
    lemma_opened_paid_users(cs, l);
}

/// Replacing the proposal at `x` by one whose free committers are those of
/// the old one, plus possibly `user` when no open proposal has them as a free
/// committer, keeps free commitments unique.
proof fn lemma_replace_keeps_free_once(props: Proposals, x: int, q: Proposal, user: Seq<u8>)
    requires
        free_once(props),
        0 <= x < props.len(),
        forall|k: Seq<u8>|
            #[trigger] free_in(q.commitments@, k) ==> free_in(props[x].1.commitments@, k) || (k == user
                && !has_free_commit(props, user)),
    ensures
        free_once(props.update(x, (props[x].0, q))),
{
    let t = props.update(x, (props[x].0, q));
    assert forall|i: int, j: int, k: Seq<u8>| 0 <= i < j < t.len() implies !(#[trigger] free_in(
        t[i].1.commitments@,
        k,
    ) && #[trigger] free_in(t[j].1.commitments@, k)) by {
        if i == x {
            assert(t[j] == props[j]);
            if free_in(q.commitments@, k) && free_in(props[j].1.commitments@, k) && !free_in(
                props[x].1.commitments@,
                k,
            ) {
                assert(has_key(props[j].1.commitments@, k));
                assert(has_free_commit(props, user));
            }
        } else if j == x {
            assert(t[i] == props[i]);
            if free_in(q.commitments@, k) && free_in(props[i].1.commitments@, k) && !free_in(
                props[x].1.commitments@,
                k,
            ) {
                assert(has_key(props[i].1.commitments@, k));
                assert(has_free_commit(props, user));
            }
        } else {
            assert(t[i] == props[i] && t[j] == props[j]);
        }
    }
}

/// Every command keeps free commitments unique.
#[verifier::spinoff_prover]
proof fn lemma_post_keeps_free_once(
    base: Room,
    props: Proposals,
    cmd: Command,
    now: Timestamp,
    new: Room,
    r: Result<Outcome, Error>,
)
    requires
        new.wf(),
        proposals_wf(props),
        command_post(base, props, cmd, now, new, r),
        free_once(props),
    ensures
        free_once(new.props()),
{
    assert(proposals_wf(new.props()));
    match cmd {
        Command::OpenProposal { proposer, target, action, commit } => {
            if open_proposal_check(base, props, proposer, target, action, commit) is Ok {
                let (id, p) = choose|id: ProposalId, p: Proposal|
                    {
                        &&& r == Ok::<Outcome, Error>(Outcome::ProposalOpened { id })
                        &&& id == p.id
                        &&& fresh_proposal(p, proposer, target, action, commit, now, base.genesis_rec().param_set())
                        &&& #[trigger] new.props() == insert_spec(props, id, p)
                        &&& new.proposer_slots() == insert_spec(base.proposer_slots(), proposer, id)
                        &&& new.pair_slots() == base.pair_slots().push(((target, action), id))
                        &&& new.genesis_rec() == base.genesis_rec()
                        &&& new.log() == base.log()
                        &&& new.cache() == base.cache()
                    };
                let c = fresh_commitment(commit.hash, CommitmentKind::Paid { amount: commit.amount });
                assert forall|k: Seq<u8>| !#[trigger] free_in(p.commitments@, k) by {
                    let s1 = seq![(proposer, c)];
                    assert(p.commitments@ == s1);
                    if has_key(s1, k) {
                        let j = index_of_key(s1, k);
                        assert(j == 0);
                    }
                }
                let t = new.props();
                if has_key(props, id@) {
                    let x = index_of_key(props, id@);
                    assert(t == props.update(x, (id, p)));
                    assert forall|i: int, j: int, k: Seq<u8>| 0 <= i < j < t.len() implies !(#[trigger] free_in(
                        t[i].1.commitments@,
                        k,
                    ) && #[trigger] free_in(t[j].1.commitments@, k)) by {
                        if i == x {
                            assert(t[i].1 == p);
                            assert(!free_in(p.commitments@, k));
                        } else if j == x {
                            assert(t[j].1 == p);
                            assert(!free_in(p.commitments@, k));
                        } else {
                            assert(t[i] == props[i] && t[j] == props[j]);
                        }
                    }
                } else {
                    let x = insert_position(props, id@);
                    lemma_insert_position_range(props, id@);
                    assert(t == props.insert(x, (id, p)));
                    assert forall|i: int, j: int, k: Seq<u8>| 0 <= i < j < t.len() implies !(#[trigger] free_in(
                        t[i].1.commitments@,
                        k,
                    ) && #[trigger] free_in(t[j].1.commitments@, k)) by {
                        if i == x {
                            assert(t[i].1 == p);
                            assert(!free_in(p.commitments@, k));
                        } else if j == x {
                            assert(t[j].1 == p);
                            assert(!free_in(p.commitments@, k));
                        } else {
                            let i2 = if i < x { i } else { i - 1 };
                            let j2 = if j < x { j } else { j - 1 };
                            assert(t[i] == props[i2] && t[j] == props[j2]);
                        }
                    }
                }
            }
        },
        Command::CommitPaid { user, proposal, commit } => {
            if commit_paid_check(base, props, user, proposal, commit) is Ok {
                let c = fresh_commitment(commit.hash, CommitmentKind::Paid { amount: commit.amount });
                let q = choose|q: Proposal|
                    {
                        &&& Proposal::same_header(q, value_at_key(props, proposal@))
                        &&& q.commitments@ == insert_spec(value_at_key(props, proposal@).commitments@, user, c)
                        &&& #[trigger] new.props() == replaced_at(props, proposal@, q)
                    };
                let x = index_of_key(props, proposal@);
                assert(new.props()[x].1 == q);
                assert(props[x].1.wf());
                assert forall|k: Seq<u8>| #[trigger] free_in(q.commitments@, k) implies free_in(
                    props[x].1.commitments@,
                    k,
                ) by {
                    lemma_free_in_fresh(props[x].1.commitments@, user, c, k);
                }
                lemma_replace_keeps_free_once(props, x, q, user@);
            }
        },
        Command::CommitFree { user, proposal, commit } => {
            if commit_free_check(base, props, user, proposal) is Ok {
                let c = fresh_commitment(commit.hash, CommitmentKind::Free);
                let q = choose|q: Proposal|
                    {
                        &&& Proposal::same_header(q, value_at_key(props, proposal@))
                        &&& q.commitments@ == insert_spec(value_at_key(props, proposal@).commitments@, user, c)
                        &&& #[trigger] new.props() == replaced_at(props, proposal@, q)
                    };
                let x = index_of_key(props, proposal@);
                assert(new.props()[x].1 == q);
                assert(props[x].1.wf());
                assert forall|k: Seq<u8>| #[trigger] free_in(q.commitments@, k) implies free_in(
                    props[x].1.commitments@,
                    k,
                ) || (k == user@ && !has_free_commit(props, user@)) by {
                    lemma_free_in_fresh(props[x].1.commitments@, user, c, k);
                }
                lemma_replace_keeps_free_once(props, x, q, user@);
            }
        },
        Command::CommitToReveal { user, proposal, commit } => {
            if reveal_check(props, user, proposal) is Ok {
                let p = value_at_key(props, proposal@);
                let i = index_of_key(p.commitments@, user@);
                let c = crate::proposal::UserCommitment {
                    reveal_hash: Some(commit.hash),
                    ..value_at_key(p.commitments@, user@)
                };
                let q = choose|q: Proposal|
                    {
                        &&& Proposal::same_header(q, p)
                        &&& q.commitments@ == p.commitments@.update(i, (p.commitments@[i].0, c))
                        &&& #[trigger] new.props() == replaced_at(props, proposal@, q)
                    };
                let x = index_of_key(props, proposal@);
                assert(props[x].1.wf());
                assert forall|k: Seq<u8>| #[trigger] free_in(q.commitments@, k) implies free_in(
                    props[x].1.commitments@,
                    k,
                ) by {
                    lemma_free_in_same_kind(p.commitments@, i, c, k);
                }
                lemma_replace_keeps_free_once(props, x, q, user@);
            }
        },
        Command::Open { user, proposal, opening } => {
            if open_check_room(props, user, proposal, opening) is Ok {
                let p = value_at_key(props, proposal@);
                let i = index_of_key(p.commitments@, user@);
                let c = crate::proposal::UserCommitment {
                    opened: Some(opening.direction),
                    ..value_at_key(p.commitments@, user@)
                };
                let q = choose|q: Proposal|
                    {
                        &&& Proposal::same_header(q, p)
                        &&& q.commitments@ == p.commitments@.update(i, (p.commitments@[i].0, c))
                        &&& #[trigger] new.props() == replaced_at(props, proposal@, q)
                    };
                let x = index_of_key(props, proposal@);
                assert(props[x].1.wf());
                assert forall|k: Seq<u8>| #[trigger] free_in(q.commitments@, k) implies free_in(
                    props[x].1.commitments@,
                    k,
                ) by {
                    lemma_free_in_same_kind(p.commitments@, i, c, k);
                }
                lemma_replace_keeps_free_once(props, x, q, user@);
            }
        },
        Command::Settle { proposal } => {
            if has_key(props, proposal@) && value_at_key(props, proposal@).phase == Phase::AwaitingSettlement {
                let x = index_of_key(props, proposal@);
                let t = props.remove(x);
                if new.props() == t {
                    assert forall|i: int, j: int, k: Seq<u8>| 0 <= i < j < t.len() implies !(#[trigger] free_in(
                        t[i].1.commitments@,
                        k,
                    ) && #[trigger] free_in(t[j].1.commitments@, k)) by {
                        let i2 = if i < x { i } else { i + 1 };
                        let j2 = if j < x { j } else { j + 1 };
                        assert(t[i] == props[i2] && t[j] == props[j2]);
                    }
                }
                lemma_settle_props(base, props, proposal, now, new, r);
            }
        },
    }
}

/// Settling leaves the open proposals as they were, or drops the settled one.
proof fn lemma_settle_props(
    base: Room,
    props: Proposals,
    proposal: ProposalId,
    now: Timestamp,
    new: Room,
    r: Result<Outcome, Error>,
)
    requires
        settle_post(base, props, proposal, now, new, r),
        has_key(props, proposal@),
    ensures
        new.props() == props || new.props() == props.remove(index_of_key(props, proposal@)),
{
    if value_at_key(props, proposal@).phase == Phase::AwaitingSettlement && payout_sum(
        settle_forfeits(base, value_at_key(props, proposal@)),
    ) <= u64::MAX {
        let p = value_at_key(props, proposal@);
        let pot = payout_sum(settle_forfeits(base, p)) as u64;
        let e = choose|e: SettlementEntry|
            {
                let eff = settlement_effect(base.cache().ledger(), e);
                &&& #[trigger] entry_for(e, base, p, now, pot)
                &&& new.cache().models(eff.0)
                &&& new.genesis_rec() == base.genesis_rec()
                &&& (eff.1 matches Some(err) ==> {
                    &&& r == Err::<Outcome, Error>(err)
                    &&& new.props() == props
                    &&& new.log() == base.log()
                    &&& new.proposer_slots() == base.proposer_slots()
                    &&& new.pair_slots() == base.pair_slots()
                })
                &&& (eff.1 is None ==> {
                    &&& r matches Ok(Outcome::Settled(x)) && same_entry(x, e)
                    &&& new.props() == props.remove(index_of_key(props, proposal@))
                    &&& new.log() == base.log().push(e)
                    &&& new.proposer_slots() == remove_key_spec(base.proposer_slots(), p.proposer@)
                    &&& new.pair_slots() == pair_removed(base.pair_slots(), p.target, p.action)
                    &&& (base.cache().consistent() ==> new.cache().consistent())
                })
            };
    }
}

/// Advancing the clock changes no commitment.
proof fn lemma_tick_keeps_free_once(props: Proposals, now: u64)
    ensures
        free_once(props) ==> free_once(tick_spec(props, now)),
{
    let t = tick_spec(props, now);
    assert(forall|i: int| 0 <= i < props.len() ==> #[trigger] t[i] == (props[i].0, advanced(props[i].1, now)));
    if free_once(props) {
        assert forall|i: int, j: int, k: Seq<u8>| 0 <= i < j < t.len() implies !(#[trigger] free_in(
            t[i].1.commitments@,
            k,
        ) && #[trigger] free_in(t[j].1.commitments@, k)) by {
            assert(t[i].1.commitments == props[i].1.commitments);
            assert(t[j].1.commitments == props[j].1.commitments);
        }
    }
}

/// Apart from settling a due proposal, a command either succeeds or leaves
/// the cache and the open proposals as they were.
proof fn lemma_post_failure_shape(
    base: Room,
    props: Proposals,
    cmd: Command,
    now: Timestamp,
    new: Room,
    r: Result<Outcome, Error>,
)
    requires
        command_post(base, props, cmd, now, new, r),
    ensures
        !(cmd matches Command::Settle { proposal } && has_key(props, proposal@) && value_at_key(
            props,
            proposal@,
        ).phase == Phase::AwaitingSettlement) ==> (r is Ok || (new.cache() == base.cache() && new.props()
            == props)),
        !(cmd is Settle) ==> new.cache() == base.cache(),
{
    match cmd {
        Command::OpenProposal { proposer, target, action, commit } => {
            if open_proposal_check(base, props, proposer, target, action, commit) is Ok {
                let (id, p) = choose|id: ProposalId, p: Proposal|
                    {
                        &&& r == Ok::<Outcome, Error>(Outcome::ProposalOpened { id })
                        &&& id == p.id
                        &&& fresh_proposal(p, proposer, target, action, commit, now, base.genesis_rec().param_set())
                        &&& #[trigger] new.props() == insert_spec(props, id, p)
                        &&& new.proposer_slots() == insert_spec(base.proposer_slots(), proposer, id)
                        &&& new.pair_slots() == base.pair_slots().push(((target, action), id))
                        &&& new.genesis_rec() == base.genesis_rec()
                        &&& new.log() == base.log()
                        &&& new.cache() == base.cache()
                    };
            }
        },
        _ => {},
    }
}

/// Advancing the clock changes no proposal's action or target.
proof fn lemma_tick_keeps_valid(props: Proposals, now: u64)
    ensures
        actions_valid(props) ==> actions_valid(tick_spec(props, now)),
{
    let t = tick_spec(props, now);
    assert(forall|i: int| 0 <= i < props.len() ==> #[trigger] t[i] == (props[i].0, advanced(props[i].1, now)));
    if actions_valid(props) {
        assert forall|i: int| 0 <= i < t.len() implies valid_pair((#[trigger] t[i]).1.action, t[i].1.target) by {
            assert(valid_pair(props[i].1.action, props[i].1.target));
        }
    }
}

/// Every command keeps each open proposal's action valid for its target:
/// opening checks it, and nothing else changes an action or a target.
proof fn lemma_post_keeps_valid(
    base: Room,
    props: Proposals,
    cmd: Command,
    now: Timestamp,
    new: Room,
    r: Result<Outcome, Error>,
)
    requires
        command_post(base, props, cmd, now, new, r),
        actions_valid(props),
    ensures
        actions_valid(new.props()),
{
    match cmd {
        Command::OpenProposal { proposer, target, action, commit } => {
            if open_proposal_check(base, props, proposer, target, action, commit) is Ok {
                let (id, p) = choose|id: ProposalId, p: Proposal|
                    {
                        &&& r == Ok::<Outcome, Error>(Outcome::ProposalOpened { id })
                        &&& id == p.id
                        &&& fresh_proposal(p, proposer, target, action, commit, now, base.genesis_rec().param_set())
                        &&& #[trigger] new.props() == insert_spec(props, id, p)
                        &&& new.proposer_slots() == insert_spec(base.proposer_slots(), proposer, id)
                        &&& new.pair_slots() == base.pair_slots().push(((target, action), id))
                        &&& new.genesis_rec() == base.genesis_rec()
                        &&& new.log() == base.log()
                        &&& new.cache() == base.cache()
                    };
                let t = new.props();
                if has_key(props, id@) {
                    let x = index_of_key(props, id@);
                    assert forall|i: int| 0 <= i < t.len() implies valid_pair((#[trigger] t[i]).1.action, t[i].1.target) by {
                        if i != x {
                            assert(t[i] == props[i]);
                        }
                    }
                } else {
                    let x = insert_position(props, id@);
                    lemma_insert_position_range(props, id@);
                    assert forall|i: int| 0 <= i < t.len() implies valid_pair((#[trigger] t[i]).1.action, t[i].1.target) by {
                        if i < x {
                            assert(t[i] == props[i]);
                        } else if i > x {
                            assert(t[i] == props[i - 1]);
                        }
                    }
                }
            }
        },
        Command::Settle { proposal } => {
            if has_key(props, proposal@) {
                lemma_settle_props(base, props, proposal, now, new, r);
                let x = index_of_key(props, proposal@);
                let t = props.remove(x);
                assert forall|i: int| 0 <= i < t.len() implies valid_pair((#[trigger] t[i]).1.action, t[i].1.target) by {
                    if i < x {
                        assert(t[i] == props[i]);
                    } else {
                        assert(t[i] == props[i + 1]);
                    }
                }
            }
        },
        _ => {
            lemma_post_keeps_header(base, props, cmd, now, new, r);
            let t = new.props();
            assert forall|i: int| 0 <= i < t.len() implies valid_pair((#[trigger] t[i]).1.action, t[i].1.target) by {
                assert(t[i].1.action == props[i].1.action && t[i].1.target == props[i].1.target);
            }
        },
    }
}

/// The commitment commands change no proposal's header.
proof fn lemma_post_keeps_header(
    base: Room,
    props: Proposals,
    cmd: Command,
    now: Timestamp,
    new: Room,
    r: Result<Outcome, Error>,
)
    requires
        command_post(base, props, cmd, now, new, r),
        !(cmd is OpenProposal),
        !(cmd is Settle),
    ensures
        new.props().len() == props.len(),
        forall|i: int|
            0 <= i < props.len() ==> (#[trigger] new.props()[i]).1.action == props[i].1.action && new.props()[i].1.target
                == props[i].1.target,
{
    match cmd {
        Command::CommitPaid { user, proposal, commit } => {
            if commit_paid_check(base, props, user, proposal, commit) is Ok {
                let q = choose|q: Proposal|
                    {
                        &&& Proposal::same_header(q, value_at_key(props, proposal@))
                        &&& q.commitments@ == insert_spec(
                            value_at_key(props, proposal@).commitments@,
                            user,
                            fresh_commitment(commit.hash, CommitmentKind::Paid { amount: commit.amount }),
                        )
                        &&& #[trigger] new.props() == replaced_at(props, proposal@, q)
                    };
            }
        },
        Command::CommitFree { user, proposal, commit } => {
            if commit_free_check(base, props, user, proposal) is Ok {
                let q = choose|q: Proposal|
                    {
                        &&& Proposal::same_header(q, value_at_key(props, proposal@))
                        &&& q.commitments@ == insert_spec(
                            value_at_key(props, proposal@).commitments@,
                            user,
                            fresh_commitment(commit.hash, CommitmentKind::Free),
                        )
                        &&& #[trigger] new.props() == replaced_at(props, proposal@, q)
                    };
            }
        },
        Command::CommitToReveal { user, proposal, commit } => {
            if reveal_check(props, user, proposal) is Ok {
                let p = value_at_key(props, proposal@);
                let i = index_of_key(p.commitments@, user@);
                let c = crate::proposal::UserCommitment {
                    reveal_hash: Some(commit.hash),
                    ..value_at_key(p.commitments@, user@)
                };
                let q = choose|q: Proposal|
                    {
                        &&& Proposal::same_header(q, p)
                        &&& q.commitments@ == p.commitments@.update(i, (p.commitments@[i].0, c))
                        &&& #[trigger] new.props() == replaced_at(props, proposal@, q)
                    };
            }
        },
        Command::Open { user, proposal, opening } => {
            if open_check_room(props, user, proposal, opening) is Ok {
                let p = value_at_key(props, proposal@);
                let i = index_of_key(p.commitments@, user@);
                let c = crate::proposal::UserCommitment {
                    opened: Some(opening.direction),
                    ..value_at_key(p.commitments@, user@)
                };
                let q = choose|q: Proposal|
                    {
                        &&& Proposal::same_header(q, p)
                        &&& q.commitments@ == p.commitments@.update(i, (p.commitments@[i].0, c))
                        &&& #[trigger] new.props() == replaced_at(props, proposal@, q)
                    };
            }
        },
        _ => {},
    }
}

/// Every command leaves the genesis record, hence the parameters, alone.
proof fn lemma_post_keeps_genesis(
    base: Room,
    props: Proposals,
    cmd: Command,
    now: Timestamp,
    new: Room,
    r: Result<Outcome, Error>,
)
    requires
        command_post(base, props, cmd, now, new, r),
    ensures
        new.genesis_rec() == base.genesis_rec(),
{
    match cmd {
        Command::OpenProposal { proposer, target, action, commit } => {
            if open_proposal_check(base, props, proposer, target, action, commit) is Ok {
                let (id, p) = choose|id: ProposalId, p: Proposal|
                    {
                        &&& r == Ok::<Outcome, Error>(Outcome::ProposalOpened { id })
                        &&& id == p.id
                        &&& fresh_proposal(p, proposer, target, action, commit, now, base.genesis_rec().param_set())
                        &&& #[trigger] new.props() == insert_spec(props, id, p)
                        &&& new.proposer_slots() == insert_spec(base.proposer_slots(), proposer, id)
                        &&& new.pair_slots() == base.pair_slots().push(((target, action), id))
                        &&& new.genesis_rec() == base.genesis_rec()
                        &&& new.log() == base.log()
                        &&& new.cache() == base.cache()
                    };
            }
        },
        Command::Settle { proposal } => {
            if has_key(props, proposal@) && value_at_key(props, proposal@).phase == Phase::AwaitingSettlement
                && payout_sum(settle_forfeits(base, value_at_key(props, proposal@))) <= u64::MAX {
                let p = value_at_key(props, proposal@);
                let pot = payout_sum(settle_forfeits(base, p)) as u64;
                let e = choose|e: SettlementEntry|
                    {
                        let eff = settlement_effect(base.cache().ledger(), e);
                        &&& #[trigger] entry_for(e, base, p, now, pot)
                        &&& new.cache().models(eff.0)
                        &&& new.genesis_rec() == base.genesis_rec()
                        &&& (eff.1 matches Some(err) ==> {
                            &&& r == Err::<Outcome, Error>(err)
                            &&& new.props() == props
                            &&& new.log() == base.log()
                            &&& new.proposer_slots() == base.proposer_slots()
                            &&& new.pair_slots() == base.pair_slots()
                        })
                        &&& (eff.1 is None ==> {
                            &&& r matches Ok(Outcome::Settled(x)) && same_entry(x, e)
                            &&& new.props() == props.remove(index_of_key(props, proposal@))
                            &&& new.log() == base.log().push(e)
                            &&& new.proposer_slots() == remove_key_spec(base.proposer_slots(), p.proposer@)
                            &&& new.pair_slots() == pair_removed(base.pair_slots(), p.target, p.action)
                            &&& (base.cache().consistent() ==> new.cache().consistent())
                        })
                    };
            }
        },
        _ => {},
    }
}

/// In a room consistent with its log and keeping the escrow, the only error
/// a command can give after moving the cache or the open proposals is
/// `Overflow` (a settlement whose free mints do not fit the supply).
proof fn lemma_only_overflow_moves(
    base: Room,
    props: Proposals,
    cmd: Command,
    now: Timestamp,
    new: Room,
    r: Result<Outcome, Error>,
)
    requires
        base.cache().wf(),
        base.cache().consistent(),
        escrow_for(props, base.cache()),
        proposals_wf(props),
        command_post(base, props, cmd, now, new, r),
        r != Err::<Outcome, Error>(Error::Overflow),
    ensures
        r is Ok || (new.cache() == base.cache() && new.props() == props),
{
    lemma_post_failure_shape(base, props, cmd, now, new, r);
    if let Command::Settle { proposal } = cmd {
        if has_key(props, proposal@) && value_at_key(props, proposal@).phase == Phase::AwaitingSettlement {
            let x = index_of_key(props, proposal@);
            lemma_settle_succeeds(base, props, x, now);
            let p = value_at_key(props, proposal@);
            let pot = payout_sum(settle_forfeits(base, p)) as u64;
            let e = choose|e: SettlementEntry|
                {
                    let eff = settlement_effect(base.cache().ledger(), e);
                    &&& #[trigger] entry_for(e, base, p, now, pot)
                    &&& new.cache().models(eff.0)
                    &&& new.genesis_rec() == base.genesis_rec()
                    &&& (eff.1 matches Some(err) ==> {
                        &&& r == Err::<Outcome, Error>(err)
                        &&& new.props() == props
                        &&& new.log() == base.log()
                        &&& new.proposer_slots() == base.proposer_slots()
                        &&& new.pair_slots() == base.pair_slots()
                    })
                    &&& (eff.1 is None ==> {
                        &&& r matches Ok(Outcome::Settled(x)) && same_entry(x, e)
                        &&& new.props() == props.remove(index_of_key(props, proposal@))
                        &&& new.log() == base.log().push(e)
                        &&& new.proposer_slots() == remove_key_spec(base.proposer_slots(), p.proposer@)
                        &&& new.pair_slots() == pair_removed(base.pair_slots(), p.target, p.action)
                        &&& (base.cache().consistent() ==> new.cache().consistent())
                    })
                };
        }
    }
}

/// What `apply` keeps, from the effect `command_post` of its command on the
/// room `base` advanced to `mid`.
#[verifier::spinoff_prover]
proof fn lemma_apply_laws(base: Room, mid: Room, cmd: Command, now: Timestamp, new: Room, r: Result<Outcome, Error>)
    requires
        base.wf(),
        mid.wf(),
        new.wf(),
        mid.props() == tick_spec(base.props(), now@),
        only_props_changed(base, mid),
        command_post(mid, mid.props(), cmd, now, new, r),
        command_post(base, tick_spec(base.props(), now@), cmd, now, new, r),
    ensures
        new.genesis_rec() == base.genesis_rec(),
        base.consistent() && (r is Ok || new.cache() == base.cache()) ==> new.consistent(),
        base.slots_match() && opens_fresh_id(base.props(), cmd) && (r is Ok || new.props() == tick_spec(
            base.props(),
            now@,
        )) ==> new.slots_match(),
        base.escrow_ok() && (r is Ok || new.cache() == base.cache()) ==> new.escrow_ok(),
        base.consistent() && base.escrow_ok() && (cmd matches Command::Settle { proposal } && settle_due(
            tick_spec(base.props(), now@),
            proposal,
            base.cache().supply_spec(),
        )) ==> r is Ok,
        base.free_commits_once() ==> new.free_commits_once(),
        base.actions_valid() ==> new.actions_valid(),
        base.consistent() && base.escrow_ok() && r != Err::<Outcome, Error>(Error::Overflow) ==> new.consistent()
            && new.escrow_ok(),
        base.sound() && opens_fresh_id(base.props(), cmd) && r != Err::<Outcome, Error>(Error::Overflow)
            ==> new.sound(),
{
    let ticked = tick_spec(base.props(), now@);
    lemma_post_keeps_genesis(base, ticked, cmd, now, new, r);
    lemma_tick_keeps_valid(base.props(), now@);
    if base.actions_valid() {
        lemma_post_keeps_valid(base, ticked, cmd, now, new, r);
    }
    if base.consistent() && base.escrow_ok() && r != Err::<Outcome, Error>(Error::Overflow) {
        assert forall|k: Seq<u8>| #[trigger] locks_sum(ticked, k) <= base.cache().balance_of(k) by {
            lemma_locks_tick(base.props(), now@, k);
        }
        lemma_only_overflow_moves(base, ticked, cmd, now, new, r);
    }
    if base.consistent() && (r is Ok || new.cache() == base.cache()) {
        if new.log() != base.log() {
            lemma_settle_keeps_consistent(mid, mid.props(), cmd->Settle_proposal, now, new, r);
        }
    }
    if base.slots_match() && opens_fresh_id(base.props(), cmd) && (r is Ok || new.props() == tick_spec(
        base.props(),
        now@,
    )) {
        let ticked = tick_spec(base.props(), now@);
        lemma_tick_keeps_slots(base.props(), base.proposer_slots(), base.pair_slots(), now@);
        assert(opens_fresh_id(ticked, cmd));
        lemma_post_keeps_slots(base, ticked, cmd, now, new, r);
    }
    if base.escrow_ok() && (r is Ok || new.cache() == base.cache()) {
        let ticked = tick_spec(base.props(), now@);
        assert forall|k: Seq<u8>| #[trigger] locks_sum(ticked, k) <= base.cache().balance_of(k) by {
            lemma_locks_tick(base.props(), now@, k);
        }
        lemma_post_keeps_escrow(base, ticked, cmd, now, new, r);
    }
    if base.consistent() && base.escrow_ok() && (cmd matches Command::Settle { proposal }
        && settle_due(tick_spec(base.props(), now@), proposal, base.cache().supply_spec())) {
        let ticked = tick_spec(base.props(), now@);
        let id = cmd->Settle_proposal;
        assert forall|k: Seq<u8>| #[trigger] locks_sum(ticked, k) <= base.cache().balance_of(k) by {
            lemma_locks_tick(base.props(), now@, k);
        }
        lemma_settle_succeeds(base, ticked, index_of_key(ticked, id@), now);
    }
    if base.free_commits_once() {
        let ticked = tick_spec(base.props(), now@);
        lemma_tick_keeps_free_once(base.props(), now@);
        lemma_post_keeps_free_once(base, ticked, cmd, now, new, r);
    }
    lemma_post_failure_shape(base, tick_spec(base.props(), now@), cmd, now, new, r);
}

/// Free mints go exactly to the free committers who opened on the winning
/// side while at a zero balance: every minted user is one of those, and every
/// one of those is minted.
pub proof fn law_mints_go_to_correct_zero_balance_free_committers(
    cache: Balances,
    of: Seq<(UserId, Direction)>,
    w: Direction,
)
    ensures
        forall|i: int|
            #![trigger mints_of(cache, of, w)[i]]
            0 <= i < mints_of(cache, of, w).len() ==> exists|j: int|
                0 <= j < of.len() && #[trigger] of[j].0 == mints_of(cache, of, w)[i] && of[j].1 == w
                    && cache.balance_of(of[j].0@) == 0,
        forall|j: int|
            0 <= j < of.len() && (#[trigger] of[j]).1 == w && cache.balance_of(of[j].0@) == 0 ==> mints_of(
                cache,
                of,
                w,
            ).contains(of[j].0),
    decreases of.len(),
{
    if of.len() > 0 {
        let init = of.drop_last();
        law_mints_go_to_correct_zero_balance_free_committers(cache, init, w);
        let prev = mints_of(cache, init, w);
        let m = mints_of(cache, of, w);
        assert forall|i: int| #![trigger m[i]] 0 <= i < m.len() implies exists|j: int|
            0 <= j < of.len() && #[trigger] of[j].0 == m[i] && of[j].1 == w && cache.balance_of(of[j].0@) == 0 by {
            if i < prev.len() {
                assert(m[i] == prev[i]);
                let j = choose|j: int|
                    0 <= j < init.len() && #[trigger] init[j].0 == prev[i] && init[j].1 == w && cache.balance_of(
                        init[j].0@,
                    ) == 0;
                assert(of[j] == init[j]);
            } else {
                assert(of[of.len() - 1] == of.last());
            }
        }
        assert forall|j: int| 0 <= j < of.len() && (#[trigger] of[j]).1 == w && cache.balance_of(of[j].0@) == 0 implies m.contains(of[j].0) by {
            if j < init.len() {
                assert(init[j] == of[j]);
                assert(prev.contains(init[j].0));
                let i = choose|i: int| 0 <= i < prev.len() && prev[i] == init[j].0;
                if cache.balance_of(of.last().0@) == 0 && of.last().1 == w {
                    assert(m[i] == prev[i]);
                }
            } else {
                assert(of[j] == of.last());
                assert(m[m.len() - 1] == of[j].0);
            }
        }
    }
}

/// Opened free commitments are exactly the free commitments that were
/// opened, with the direction they opened to; paid ones never appear.
pub proof fn law_opened_free_are_free(cs: Commitments, i: int)
    requires
        0 <= i < opened_free(cs).len(),
    ensures
        exists|j: int|
            0 <= j < cs.len() && (#[trigger] cs[j]).0 == opened_free(cs)[i].0 && cs[j].1.kind is Free
                && cs[j].1.opened == Some(opened_free(cs)[i].1),
    decreases cs.len(),
{
    let init = cs.drop_last();
    let prev = opened_free(init);
    if i < prev.len() {
        law_opened_free_are_free(init, i);
        let j = choose|j: int|
            0 <= j < init.len() && (#[trigger] init[j]).0 == prev[i].0 && init[j].1.kind is Free && init[j].1.opened
                == Some(prev[i].1);
        assert(cs[j] == init[j]);
        assert(opened_free(cs)[i] == prev[i]);
    } else {
        assert(cs[cs.len() - 1] == cs.last());
    }
}

/// Forfeited unopened stakes are exactly the paid commitments never opened,
/// each with its whole stake.
pub proof fn law_unopened_paid_forfeits_whole_stakes(cs: Commitments)
    ensures
        forall|i: int|
            #![trigger unopened_paid(cs)[i]]
            0 <= i < unopened_paid(cs).len() ==> exists|j: int|
                0 <= j < cs.len() && (#[trigger] cs[j]).0 == unopened_paid(cs)[i].user && cs[j].1.opened is None
                    && cs[j].1.kind == (CommitmentKind::Paid { amount: unopened_paid(cs)[i].amount }),
        forall|j: int|
            0 <= j < cs.len() && (#[trigger] cs[j]).1.opened is None && cs[j].1.kind is Paid ==> unopened_paid(
                cs,
            ).contains(Payout { user: cs[j].0, amount: cs[j].1.kind->Paid_amount }),
    decreases cs.len(),
{
    if cs.len() > 0 {
        let init = cs.drop_last();
        law_unopened_paid_forfeits_whole_stakes(init);
        let prev = unopened_paid(init);
        let m = unopened_paid(cs);
        assert forall|i: int| #![trigger m[i]] 0 <= i < m.len() implies exists|j: int|
            0 <= j < cs.len() && (#[trigger] cs[j]).0 == m[i].user && cs[j].1.opened is None && cs[j].1.kind == (
            CommitmentKind::Paid { amount: m[i].amount }) by {
            if i < prev.len() {
                assert(m[i] == prev[i]);
                let j = choose|j: int|
                    0 <= j < init.len() && (#[trigger] init[j]).0 == prev[i].user && init[j].1.opened is None
                        && init[j].1.kind == (CommitmentKind::Paid { amount: prev[i].amount });
                assert(cs[j] == init[j]);
            } else {
                assert(cs[cs.len() - 1] == cs.last());
            }
        }
        assert forall|j: int|
            0 <= j < cs.len() && (#[trigger] cs[j]).1.opened is None && cs[j].1.kind is Paid implies m.contains(
            Payout { user: cs[j].0, amount: cs[j].1.kind->Paid_amount },
        ) by {
            let x = Payout { user: cs[j].0, amount: cs[j].1.kind->Paid_amount };
            if j < init.len() {
                assert(init[j] == cs[j]);
                assert(prev.contains(x));
                let i = choose|i: int| 0 <= i < prev.len() && prev[i] == x;
                if m.len() > prev.len() {
                    assert(m[i] == prev[i]);
                }
            } else {
                assert(cs[j] == cs.last());
                assert(m[m.len() - 1] == x);
            }
        }
    }
}

/// Every losing stake was opened on the side opposite the winning one, and
/// every stake opened on another side is among the losing stakes.
proof fn lemma_losers_are_off_side(op: Seq<(UserId, Amount, Direction)>, w: Direction)
    ensures
        forall|i: int|
            #![trigger losers_of(op, w)[i]]
            0 <= i < losers_of(op, w).len() ==> op.contains(
                (losers_of(op, w)[i].user, losers_of(op, w)[i].amount, other_side(w)),
            ),
        forall|j: int|
            0 <= j < op.len() && (#[trigger] op[j]).2 != w ==> losers_of(op, w).contains(
                Payout { user: op[j].0, amount: op[j].1 },
            ),
    decreases op.len(),
{
    if op.len() > 0 {
        let init = op.drop_last();
        lemma_losers_are_off_side(init, w);
        let pl = losers_of(init, w);
        let ml = losers_of(op, w);
        let y = op.last();
        assert(op[op.len() - 1] == y);
        if y.2 != w {
            assert(ml == pl.push(Payout { user: y.0, amount: y.1 }));
        } else {
            assert(ml == pl);
        }
        assert forall|i: int| #![trigger ml[i]] 0 <= i < ml.len() implies op.contains(
            (ml[i].user, ml[i].amount, other_side(w)),
        ) by {
            if i < pl.len() {
                assert(ml[i] == pl[i]);
                let j = choose|j: int| 0 <= j < init.len() && init[j] == (pl[i].user, pl[i].amount, other_side(w));
                assert(op[j] == init[j]);
            } else {
                let j = op.len() - 1;
                assert(y.2 == other_side(w));
                assert(op[j] == (ml[i].user, ml[i].amount, other_side(w)));
            }
        }
        assert forall|j: int| 0 <= j < op.len() && (#[trigger] op[j]).2 != w implies ml.contains(
            Payout { user: op[j].0, amount: op[j].1 },
        ) by {
            if j < init.len() {
                assert(init[j] == op[j]);
                let i = choose|i: int| 0 <= i < pl.len() && pl[i] == Payout { user: init[j].0, amount: init[j].1 };
                assert(ml[i] == pl[i]);
            } else {
                assert(ml[ml.len() - 1] == Payout { user: y.0, amount: y.1 });
            }
        }
    }
}

/// Every winning stake was opened on the winning side, and every stake opened
/// on the winning side is among the winning stakes.
proof fn lemma_winners_are_on_side(op: Seq<(UserId, Amount, Direction)>, w: Direction)
    ensures
        forall|i: int|
            #![trigger winners_of(op, w)[i]]
            0 <= i < winners_of(op, w).len() ==> exists|j: int|
                0 <= j < op.len() && #[trigger] op[j] == (winners_of(op, w)[i].0, winners_of(op, w)[i].1, w),
        forall|j: int|
            0 <= j < op.len() && (#[trigger] op[j]).2 == w ==> winners_of(op, w).contains((op[j].0, op[j].1)),
        winners_of(op, w).len() + losers_of(op, w).len() == op.len(),
    decreases op.len(),
{
    if op.len() > 0 {
        let init = op.drop_last();
        lemma_winners_are_on_side(init, w);
        let pw = winners_of(init, w);
        let mw = winners_of(op, w);
        let y = op.last();
        assert(op[op.len() - 1] == y);
        if y.2 == w {
            assert(mw == pw.push((y.0, y.1)));
        } else {
            assert(mw == pw);
        }
        assert forall|i: int| #![trigger mw[i]] 0 <= i < mw.len() implies exists|j: int|
            0 <= j < op.len() && #[trigger] op[j] == (mw[i].0, mw[i].1, w) by {
            if i < pw.len() {
                assert(mw[i] == pw[i]);
                let j = choose|j: int| 0 <= j < init.len() && #[trigger] init[j] == (pw[i].0, pw[i].1, w);
                assert(op[j] == init[j]);
            }
        }
        assert forall|j: int| 0 <= j < op.len() && (#[trigger] op[j]).2 == w implies mw.contains((op[j].0, op[j].1)) by {
            if j < init.len() {
                assert(init[j] == op[j]);
                let i = choose|i: int| 0 <= i < pw.len() && pw[i] == (init[j].0, init[j].1);
                assert(mw[i] == pw[i]);
            } else {
                assert(mw[mw.len() - 1] == (y.0, y.1));
            }
        }
    }
}

/// The winning and losing stakes split the opened paid stakes by side: every
/// winner opened on the winning side and every loser on the other, and every
/// opened stake lands in exactly the list its side calls for.
pub proof fn law_winners_and_losers_split_by_side(op: Seq<(UserId, Amount, Direction)>, w: Direction)
    ensures
        forall|i: int|
            #![trigger winners_of(op, w)[i]]
            0 <= i < winners_of(op, w).len() ==> exists|j: int|
                0 <= j < op.len() && #[trigger] op[j] == (winners_of(op, w)[i].0, winners_of(op, w)[i].1, w),
        forall|i: int|
            #![trigger losers_of(op, w)[i]]
            0 <= i < losers_of(op, w).len() ==> op.contains(
                (losers_of(op, w)[i].user, losers_of(op, w)[i].amount, other_side(w)),
            ),
        forall|j: int|
            0 <= j < op.len() && (#[trigger] op[j]).2 == w ==> winners_of(op, w).contains((op[j].0, op[j].1)),
        forall|j: int|
            0 <= j < op.len() && (#[trigger] op[j]).2 != w ==> losers_of(op, w).contains(
                Payout { user: op[j].0, amount: op[j].1 },
            ),
        winners_of(op, w).len() + losers_of(op, w).len() == op.len(),
{
    lemma_winners_are_on_side(op, w);
    lemma_losers_are_off_side(op, w);
}

/// Each opened paid stake comes from a paid commitment opened on its side,
/// with its whole stake, and every opened paid commitment is listed.
pub proof fn law_opened_paid_are_opened_stakes(cs: Commitments)
    ensures
        forall|i: int|
            #![trigger opened_paid(cs)[i]]
            0 <= i < opened_paid(cs).len() ==> exists|j: int|
                0 <= j < cs.len() && (#[trigger] cs[j]).0 == opened_paid(cs)[i].0 && cs[j].1.kind == (
                CommitmentKind::Paid { amount: opened_paid(cs)[i].1 }) && cs[j].1.opened == Some(opened_paid(cs)[i].2),
        forall|j: int|
            0 <= j < cs.len() && (#[trigger] cs[j]).1.kind is Paid && cs[j].1.opened is Some ==> opened_paid(cs).contains(
                (cs[j].0, cs[j].1.kind->Paid_amount, cs[j].1.opened->Some_0),
            ),
    decreases cs.len(),
{
    if cs.len() > 0 {
        let init = cs.drop_last();
        law_opened_paid_are_opened_stakes(init);
        let prev = opened_paid(init);
        let m = opened_paid(cs);
        assert(cs[cs.len() - 1] == cs.last());
        assert forall|i: int| #![trigger m[i]] 0 <= i < m.len() implies exists|j: int|
            0 <= j < cs.len() && (#[trigger] cs[j]).0 == m[i].0 && cs[j].1.kind == (CommitmentKind::Paid {
                amount: m[i].1,
            }) && cs[j].1.opened == Some(m[i].2) by {
            if i < prev.len() {
                assert(m[i] == prev[i]);
                let j = choose|j: int|
                    0 <= j < init.len() && (#[trigger] init[j]).0 == prev[i].0 && init[j].1.kind == (
                    CommitmentKind::Paid { amount: prev[i].1 }) && init[j].1.opened == Some(prev[i].2);
                assert(cs[j] == init[j]);
            }
        }
        assert forall|j: int|
            0 <= j < cs.len() && (#[trigger] cs[j]).1.kind is Paid && cs[j].1.opened is Some implies m.contains(
            (cs[j].0, cs[j].1.kind->Paid_amount, cs[j].1.opened->Some_0),
        ) by {
            let x = (cs[j].0, cs[j].1.kind->Paid_amount, cs[j].1.opened->Some_0);
            if j < init.len() {
                assert(init[j] == cs[j]);
                let i = choose|i: int| 0 <= i < prev.len() && prev[i] == x;
                if m.len() > prev.len() {
                    assert(m[i] == prev[i]);
                }
            } else {
                assert(m[m.len() - 1] == x);
            }
        }
    }
}

/// Storing a well-formed proposal keeps every open proposal well formed.
proof fn lemma_insert_keeps_proposals_wf(s: Proposals, id: ProposalId, p: Proposal)
    requires
        proposals_wf(s),
        p.wf(),
    ensures
        forall|i: int|
            0 <= i < insert_spec(s, id, p).len() ==> (#[trigger] insert_spec(s, id, p)[i]).1.wf(),
{
    let t = insert_spec(s, id, p);
    if has_key(s, id.key()) {
        let k = index_of_key(s, id.key());
        assert forall|i: int| 0 <= i < t.len() implies (#[trigger] t[i]).1.wf() by {
            if i != k {
                assert(t[i] == s[i]);
            }
        }
    } else {
        let k = crate::idmap::insert_position(s, id.key());
        crate::idmap::lemma_insert_position_range(s, id.key());
        assert forall|i: int| 0 <= i < t.len() implies (#[trigger] t[i]).1.wf() by {
            if i < k {
                assert(t[i] == s[i]);
            } else if i > k {
                assert(t[i] == s[i - 1]);
            }
        }
    }
}

/// Replacing one proposal by a well-formed one with the same key keeps the
/// open proposals well formed.
proof fn lemma_replace_keeps_proposals_wf(s: Proposals, i: int, q: Proposal)
    requires
        proposals_wf(s),
        0 <= i < s.len(),
        q.wf(),
    ensures
        proposals_wf(s.update(i, (s[i].0, q))),
{
    lemma_update_value_keeps_wf(s, i, q);
    let t = s.update(i, (s[i].0, q));
    assert forall|j: int| 0 <= j < t.len() implies (#[trigger] t[j]).1.wf() by {
        if j != i {
            assert(t[j] == s[j]);
        }
    }
}

/// A command's effect depends on the room it starts from only through the
/// genesis record, the log, the balance cache and the slot indexes.
#[verifier::spinoff_prover]
proof fn lemma_post_base(
    base: Room,
    mid: Room,
    props: Proposals,
    cmd: Command,
    now: Timestamp,
    new: Room,
    r: Result<Outcome, Error>,
)
    requires
        only_props_changed(base, mid),
        command_post(mid, props, cmd, now, new, r),
    ensures
        command_post(base, props, cmd, now, new, r),
{
    match cmd {
        Command::Settle { proposal } => {
            if has_key(props, proposal@) && value_at_key(props, proposal@).phase == Phase::AwaitingSettlement
                && payout_sum(settle_forfeits(base, value_at_key(props, proposal@))) <= u64::MAX {
                let p = value_at_key(props, proposal@);
                let pot = payout_sum(settle_forfeits(mid, p)) as u64;
                let e = choose|e: SettlementEntry|
                    {
                        let eff = settlement_effect(mid.cache().ledger(), e);
                        &&& #[trigger] entry_for(e, mid, p, now, pot)
                        &&& new.cache().models(eff.0)
                        &&& new.genesis_rec() == mid.genesis_rec()
                        &&& (eff.1 matches Some(err) ==> {
                            &&& r == Err::<Outcome, Error>(err)
                            &&& new.props() == props
                            &&& new.log() == mid.log()
                            &&& new.proposer_slots() == mid.proposer_slots()
                            &&& new.pair_slots() == mid.pair_slots()
                        })
                        &&& (eff.1 is None ==> {
                            &&& r matches Ok(Outcome::Settled(x)) && same_entry(x, e)
                            &&& new.props() == props.remove(index_of_key(props, proposal@))
                            &&& new.log() == mid.log().push(e)
                            &&& new.proposer_slots() == remove_key_spec(mid.proposer_slots(), p.proposer@)
                            &&& new.pair_slots() == pair_removed(mid.pair_slots(), p.target, p.action)
                            &&& (mid.cache().consistent() ==> new.cache().consistent())
                        })
                    };
                assert(entry_for(e, base, p, now, pot));
            }
        },
        Command::OpenProposal { proposer, target, action, commit } => {
            if open_proposal_check(base, props, proposer, target, action, commit) is Ok {
                let (id, p) = choose|id: ProposalId, p: Proposal|
                    {
                        &&& r == Ok::<Outcome, Error>(Outcome::ProposalOpened { id })
                        &&& id == p.id
                        &&& fresh_proposal(p, proposer, target, action, commit, now, mid.genesis_rec().param_set())
                        &&& #[trigger] new.props() == insert_spec(props, id, p)
                        &&& new.proposer_slots() == insert_spec(mid.proposer_slots(), proposer, id)
                        &&& new.pair_slots() == mid.pair_slots().push(((target, action), id))
                        &&& new.genesis_rec() == mid.genesis_rec()
                        &&& new.log() == mid.log()
                        &&& new.cache() == mid.cache()
                    };
                assert(new.props() == insert_spec(props, id, p));
            }
        },
        _ => {},
    }
}

/// A successful settlement keeps the room consistent.
#[verifier::spinoff_prover]
proof fn lemma_settle_keeps_consistent(
    base: Room,
    props: Proposals,
    id: ProposalId,
    now: Timestamp,
    new: Room,
    r: Result<Outcome, Error>,
)
    requires
        base.consistent(),
        settle_post(base, props, id, now, new, r),
        r is Ok,
    ensures
        new.consistent(),
{
    let p = value_at_key(props, id@);
    let pot = payout_sum(settle_forfeits(base, p)) as u64;
    let e = choose|e: SettlementEntry|
        {
            let eff = settlement_effect(base.cache().ledger(), e);
            &&& #[trigger] entry_for(e, base, p, now, pot)
            &&& new.cache().models(eff.0)
            &&& new.genesis_rec() == base.genesis_rec()
            &&& (eff.1 matches Some(err) ==> {
                &&& r == Err::<Outcome, Error>(err)
                &&& new.props() == props
                &&& new.log() == base.log()
                &&& new.proposer_slots() == base.proposer_slots()
                &&& new.pair_slots() == base.pair_slots()
            })
            &&& (eff.1 is None ==> {
                &&& r matches Ok(Outcome::Settled(x)) && same_entry(x, e)
                &&& new.props() == props.remove(index_of_key(props, id@))
                &&& new.log() == base.log().push(e)
                &&& new.proposer_slots() == remove_key_spec(base.proposer_slots(), p.proposer@)
                &&& new.pair_slots() == pair_removed(base.pair_slots(), p.target, p.action)
                &&& (base.cache().consistent() ==> new.cache().consistent())
            })
        };
    let gl = genesis_ledger(base.genesis_rec().founder_list());
    let rep = replay_from(gl, base.log());
    let lg = base.cache().ledger();
    crate::settlement::lemma_chain_push(genesis_digest(base.genesis_rec()), base.log(), e);
    base.cache().lemma_ledger();
    crate::balances::lemma_models_equiv(base.cache(), lg, rep.0);
    crate::balances::lemma_effect_congruent(lg, rep.0, e);
    assert(base.log().push(e).drop_last() =~= base.log());
    assert(replay_from(gl, new.log()) == settlement_effect(rep.0, e));
    crate::balances::lemma_equiv_models(new.cache(), settlement_effect(lg, e).0, settlement_effect(rep.0, e).0);
}

/// Removing an open proposal keeps the rest well formed.
proof fn lemma_remove_keeps_proposals_wf(s: Proposals, i: int)
    requires
        proposals_wf(s),
        0 <= i < s.len(),
    ensures
        proposals_wf(s.remove(i)),
{
    let t = s.remove(i);
    assert forall|a: int, b: int| 0 <= a < b < t.len() implies crate::order::lex_lt(
        #[trigger] t[a].0.key(),
        #[trigger] t[b].0.key(),
    ) by {
        let a2 = if a < i { a } else { a + 1 };
        let b2 = if b < i { b } else { b + 1 };
        assert(t[a] == s[a2]);
        assert(t[b] == s[b2]);
    }
    assert forall|j: int| 0 <= j < t.len() implies (#[trigger] t[j].0.key()).len() == 32 && t[j].1.wf() by {
        let j2 = if j < i { j } else { j + 1 };
        assert(t[j] == s[j2]);
    }
}

proof fn lemma_payout_sum_nonneg(s: Seq<Payout>)
    ensures
        payout_sum(s) >= 0,
    decreases s.len(),
{
    if s.len() > 0 {
        lemma_payout_sum_nonneg(s.drop_last());
    }
}

proof fn lemma_payout_sum_concat(a: Seq<Payout>, b: Seq<Payout>)
    ensures
        payout_sum(a + b) == payout_sum(a) + payout_sum(b),
    decreases b.len(),
{
    if b.len() > 0 {
        assert((a + b).drop_last() =~= a + b.drop_last());
        lemma_payout_sum_concat(a, b.drop_last());
    } else {
        assert(a + b =~= a);
    }
}

proof fn lemma_unopened_prefix(cs: Commitments, n: int)
    requires
        0 <= n <= cs.len(),
    ensures
        payout_sum(unopened_paid(cs.take(n))) <= payout_sum(unopened_paid(cs)),
    decreases cs.len(),
{
    if n < cs.len() {
        assert(cs.drop_last().take(n) =~= cs.take(n));
        lemma_unopened_prefix(cs.drop_last(), n);
        let prev = unopened_paid(cs.drop_last());
        let (u, c) = cs.last();
        match (c.kind, c.opened) {
            (CommitmentKind::Paid { amount }, None) => {
                assert(prev.push(Payout { user: u, amount }).drop_last() =~= prev);
            },
            _ => {},
        }
    } else {
        assert(cs.take(n) =~= cs);
    }
}

proof fn lemma_losers_prefix(op: Seq<(UserId, Amount, Direction)>, n: int, w: Direction)
    requires
        0 <= n <= op.len(),
    ensures
        payout_sum(losers_of(op.take(n), w)) <= payout_sum(losers_of(op, w)),
    decreases op.len(),
{
    if n < op.len() {
        assert(op.drop_last().take(n) =~= op.take(n));
        lemma_losers_prefix(op.drop_last(), n, w);
        let prev = losers_of(op.drop_last(), w);
        if op.last().2 != w {
            assert(prev.push(Payout { user: op.last().0, amount: op.last().1 }).drop_last() =~= prev);
        }
    } else {
        assert(op.take(n) =~= op);
    }
}

/// A new restriction supersedes the effective one exactly when it is longer
/// than every active restriction on the user.
proof fn lemma_supersedes_takes_effect(
    log: Seq<SettlementEntry>,
    u: UserId,
    now: u64,
    d: DurationSecs,
    current: Option<Restriction>,
)
    requires
        current is None <==> !has_applicable(log, u, now),
        current matches Some(b) ==> is_effective(log, u, now, b),
    ensures
        crate::restriction::supersedes_spec(current, d) == takes_effect(log, u, now, d),
{
    match current {
        None => {},
        Some(b) => {
            if takes_effect(log, u, now, d) {
                let i = choose|i: int| 0 <= i < log.len() && #[trigger] log[i].executed_restriction == Some(b);
                assert(log[i].executed_restriction == Some(b));
            }
            if d@ > b.duration@ {
                assert forall|i: int| 0 <= i < log.len() implies (#[trigger] log[i].executed_restriction matches Some(
                    c,
                ) ==> (applies(c, u, now) ==> d@ > c.duration@)) by {}
            }
        },
    }
}

/// In a list with unique pairs, a position holding `(t, a)` is the pair's index.
proof fn lemma_pair_index(s: Seq<((Target, Action), ProposalId)>, t: Target, a: Action, k: int)
    requires
        pairs_unique(s),
        0 <= k < s.len(),
        same_target(s[k].0.0, t),
        s[k].0.1 == a,
    ensures
        pair_listed(s, t, a),
        pair_index(s, t, a) == k,
{
    assert(pair_listed(s, t, a));
    let j = pair_index(s, t, a);
    if j != k {
        crate::types::lemma_same_target_symmetric(s[j].0.0, t);
        if j < k {
            assert(same_target(s[j].0.0, s[k].0.0));
        } else {
            assert(same_target(s[k].0.0, s[j].0.0));
        }
    }
}

proof fn lemma_pairs_unique_remove(s: Seq<((Target, Action), ProposalId)>, k: int)
    requires
        pairs_unique(s),
        0 <= k < s.len(),
    ensures
        pairs_unique(s.remove(k)),
{
    let t = s.remove(k);
    assert forall|a: int, b: int| 0 <= a < b < t.len() implies !(same_target(
        (#[trigger] t[a]).0.0,
        (#[trigger] t[b]).0.0,
    ) && t[a].0.1 == t[b].0.1) by {
        let a2 = if a < k { a } else { a + 1 };
        let b2 = if b < k { b } else { b + 1 };
        assert(t[a] == s[a2]);
        assert(t[b] == s[b2]);
    }
}

} // verus!
