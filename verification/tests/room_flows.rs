//! End-to-end flows through `Room::apply`: opening, committing, revealing,
//! settling, restrictions and log replay.

use futarch::error::Error;
use futarch::{
    Action, Amount, Command, Direction, DurationSecs, Genesis, MessageId, Opening, Outcome,
    OutcomeKind, Phase, ProposalId, RevealCommit, Room, RoomParams, Salt, SettlementEntry, Target,
    Timestamp, UserId,
};

fn uid(n: u8) -> UserId {
    UserId::from_byte(n)
}

fn msg(n: u8) -> MessageId {
    MessageId::from_byte(n)
}

fn opening(dir: Direction, salt: u8) -> Opening {
    Opening::new(dir, Salt::from_byte(salt))
}

fn default_room(founders: &[u8]) -> Room {
    let founders: Vec<UserId> = founders.iter().map(|n| uid(*n)).collect();
    Room::genesis(Genesis::new(founders, RoomParams::defaults()).unwrap()).unwrap()
}

fn t0() -> Timestamp {
    Timestamp::from_millis(1_000_000)
}

fn at_reveal(room: &Room, opened_at: Timestamp) -> Timestamp {
    opened_at.saturating_add_millis(room.params().betting_window_ms)
}

fn at_opening(room: &Room, opened_at: Timestamp) -> Timestamp {
    at_reveal(room, opened_at).saturating_add_millis(room.params().commit_to_reveal_window_ms)
}

fn at_settle(room: &Room, opened_at: Timestamp) -> Timestamp {
    at_opening(room, opened_at).saturating_add_millis(room.params().opening_window_ms)
}

fn open_with(
    room: &mut Room,
    proposer: UserId,
    target: Target,
    action: Action,
    dir: Direction,
    salt: u8,
    now: Timestamp,
) -> (ProposalId, Opening) {
    let o = opening(dir, salt);
    let outcome = room
        .apply(
            Command::OpenProposal {
                proposer,
                target,
                action,
                commit: o.paid_commitment(Amount::token()),
            },
            now,
        )
        .unwrap();
    match outcome {
        Outcome::ProposalOpened { id } => (id, o),
        other => panic!("expected ProposalOpened, got {other:?}"),
    }
}

fn open_remove(
    room: &mut Room,
    proposer: UserId,
    dir: Direction,
    salt: u8,
    now: Timestamp,
) -> (ProposalId, Opening) {
    open_with(room, proposer, Target::Message(msg(1)), Action::RemoveMessage, dir, salt, now)
}

fn open_restrict(
    room: &mut Room,
    proposer: UserId,
    target: UserId,
    duration: DurationSecs,
    dir: Direction,
    salt: u8,
    now: Timestamp,
) -> (ProposalId, Opening) {
    open_with(room, proposer, Target::User(target), Action::Restrict { duration }, dir, salt, now)
}

fn commit_paid(
    room: &mut Room,
    user: UserId,
    proposal: ProposalId,
    dir: Direction,
    salt: u8,
    amount: Amount,
    now: Timestamp,
) -> Opening {
    let o = opening(dir, salt);
    room.apply(Command::CommitPaid { user, proposal, commit: o.paid_commitment(amount) }, now)
        .unwrap();
    o
}

fn commit_free(
    room: &mut Room,
    user: UserId,
    proposal: ProposalId,
    dir: Direction,
    salt: u8,
    now: Timestamp,
) -> Opening {
    let o = opening(dir, salt);
    room.apply(Command::CommitFree { user, proposal, commit: o.free_commitment() }, now)
        .unwrap();
    o
}

fn reveal_and_open(
    room: &mut Room,
    user: UserId,
    proposal: ProposalId,
    opening: &Opening,
    amount: Amount,
    opened_at: Timestamp,
) {
    let first_hash = opening.commit_hash(amount);
    let reveal = RevealCommit { hash: opening.reveal_hash(first_hash) };
    let t = at_reveal(room, opened_at);
    room.apply(Command::CommitToReveal { user, proposal, commit: reveal }, t).unwrap();
    let t = at_opening(room, opened_at);
    room.apply(Command::Open { user, proposal, opening: *opening }, t).unwrap();
}

fn settle(room: &mut Room, proposal: ProposalId, opened_at: Timestamp) -> SettlementEntry {
    let t = at_settle(room, opened_at);
    match room.apply(Command::Settle { proposal }, t).unwrap() {
        Outcome::Settled(e) => e,
        other => panic!("expected Settled, got {other:?}"),
    }
}

fn assert_phase(room: &Room, id: &ProposalId, phase: Phase) {
    assert_eq!(room.proposal(id).unwrap().phase, phase);
}

fn tokens(n: u64) -> Amount {
    Amount::from_tokens(n).unwrap()
}

// ---------------------------------------------------------------------------
// Opening, phases and commit-reveal
// ---------------------------------------------------------------------------

#[test]
fn invalid_action_for_target() {
    let mut room = default_room(&[1, 2]);
    let err = room
        .apply(
            Command::OpenProposal {
                proposer: uid(1),
                target: Target::User(uid(2)),
                action: Action::RemoveMessage,
                commit: opening(Direction::Yes, 1).paid_commitment(Amount::token()),
            },
            t0(),
        )
        .unwrap_err();
    assert_eq!(err, Error::InvalidActionForTarget);
}

#[test]
fn zero_stake_rejected() {
    let mut room = default_room(&[1, 2]);
    let err = room
        .apply(
            Command::OpenProposal {
                proposer: uid(1),
                target: Target::Message(msg(1)),
                action: Action::RemoveMessage,
                commit: opening(Direction::Yes, 1).paid_commitment(Amount::zero()),
            },
            t0(),
        )
        .unwrap_err();
    assert_eq!(err, Error::ZeroStake);
}

#[test]
fn cannot_lock_more_than_available() {
    let mut room = default_room(&[1, 2]);
    let now = t0();
    let (id, _) = open_remove(&mut room, uid(1), Direction::Yes, 1, now);
    let err = room
        .apply(
            Command::CommitPaid {
                user: uid(1),
                proposal: id,
                commit: opening(Direction::Yes, 99).paid_commitment(Amount::token()),
            },
            now,
        )
        .unwrap_err();
    assert_eq!(err, Error::InsufficientBalance);
}

#[test]
fn tick_advances_phases() {
    let mut room = default_room(&[1, 2]);
    let now = t0();
    let (id, _) = open_remove(&mut room, uid(1), Direction::Yes, 1, now);
    assert_phase(&room, &id, Phase::Betting);

    let t = at_reveal(&room, now);
    room.tick(t);
    assert_phase(&room, &id, Phase::CommitToReveal);

    let t = at_opening(&room, now);
    room.tick(t);
    assert_phase(&room, &id, Phase::Opening);

    let t = at_settle(&room, now);
    room.tick(t);
    assert_phase(&room, &id, Phase::AwaitingSettlement);
}

#[test]
fn proposal_view_hides_direction() {
    let mut room = default_room(&[1, 2]);
    let (id, _) = open_remove(&mut room, uid(1), Direction::Yes, 1, t0());
    let view = room.proposal(&id).unwrap();
    assert_eq!(view.commitment_count, 1);
    assert_eq!(view.total_locked, Amount::token());
    let _ = (view.phase, view.proposer, view.target, view.action);
}

#[test]
fn wrong_salt_fails_opening() {
    let mut room = default_room(&[1, 2]);
    let now = t0();
    let (id, o) = open_remove(&mut room, uid(1), Direction::Yes, 1, now);
    let first = o.commit_hash(Amount::token());
    let t = at_reveal(&room, now);
    room.apply(
        Command::CommitToReveal {
            user: uid(1),
            proposal: id,
            commit: RevealCommit { hash: o.reveal_hash(first) },
        },
        t,
    )
    .unwrap();
    let bad = Opening::new(Direction::Yes, Salt::from_byte(99));
    let t = at_opening(&room, now);
    let err = room
        .apply(Command::Open { user: uid(1), proposal: id, opening: bad }, t)
        .unwrap_err();
    assert_eq!(err, Error::OpeningVerifyFailed);
}

#[test]
fn opening_outside_window_rejected() {
    let mut room = default_room(&[1, 2]);
    let now = t0();
    let (id, o) = open_remove(&mut room, uid(1), Direction::Yes, 1, now);
    let err = room
        .apply(Command::Open { user: uid(1), proposal: id, opening: o }, now)
        .unwrap_err();
    assert_eq!(err, Error::WrongPhase { expected: Phase::Opening, actual: Phase::Betting });
}

#[test]
fn commit_paid_after_betting_rejected() {
    let mut room = default_room(&[1, 2]);
    let now = t0();
    let (id, _) = open_remove(&mut room, uid(1), Direction::Yes, 1, now);
    let t = at_reveal(&room, now);
    let err = room
        .apply(
            Command::CommitPaid {
                user: uid(2),
                proposal: id,
                commit: opening(Direction::No, 2).paid_commitment(Amount::token()),
            },
            t,
        )
        .unwrap_err();
    assert_eq!(
        err,
        Error::WrongPhase { expected: Phase::Betting, actual: Phase::CommitToReveal }
    );
}

#[test]
fn two_message_removes_on_same_message_rejected() {
    let mut room = default_room(&[1, 2]);
    let now = t0();
    open_remove(&mut room, uid(1), Direction::Yes, 1, now);
    let err = room
        .apply(
            Command::OpenProposal {
                proposer: uid(2),
                target: Target::Message(msg(1)),
                action: Action::RemoveMessage,
                commit: opening(Direction::No, 2).paid_commitment(Amount::token()),
            },
            now,
        )
        .unwrap_err();
    assert_eq!(err, Error::DuplicateTargetAction);
}

#[test]
fn locks_across_two_concurrent_proposals() {
    let mut room = default_room(&[1, 2, 3]);
    let now = t0();
    let (id_a, _) = open_remove(&mut room, uid(1), Direction::Yes, 1, now);
    let (id_b, _) = open_restrict(
        &mut room,
        uid(2),
        uid(9),
        DurationSecs::from_secs(30),
        Direction::Yes,
        2,
        now,
    );
    commit_paid(&mut room, uid(3), id_a, Direction::No, 3, Amount::token(), now);
    assert_eq!(room.available(&uid(3)), Amount::zero());
    let err = room
        .apply(
            Command::CommitPaid {
                user: uid(3),
                proposal: id_b,
                commit: opening(Direction::Yes, 4).paid_commitment(Amount::token()),
            },
            now,
        )
        .unwrap_err();
    assert_eq!(err, Error::InsufficientBalance);
}

#[test]
fn can_open_clears_only_after_settle() {
    let mut room = default_room(&[1, 2]);
    let now = t0();
    let (id, _) = open_remove(&mut room, uid(1), Direction::Yes, 1, now);
    assert!(!room.can_open(&uid(1)));
    let t = at_settle(&room, now);
    room.tick(t);
    assert!(!room.can_open(&uid(1)));
    room.apply(Command::Settle { proposal: id }, t).unwrap();
    // uid(1) forfeited to zero, so still cannot open.
    assert!(!room.can_open(&uid(1)));
    assert!(room.can_open(&uid(2)));
}

#[test]
fn already_committed_rejected() {
    let mut room = default_room(&[1, 2]);
    let now = t0();
    let (id, _) = open_remove(&mut room, uid(1), Direction::Yes, 1, now);
    let err = room
        .apply(
            Command::CommitPaid {
                user: uid(1),
                proposal: id,
                commit: opening(Direction::No, 8).paid_commitment(Amount::from_subunits(1)),
            },
            now,
        )
        .unwrap_err();
    assert_eq!(err, Error::InsufficientBalance);
}

#[test]
fn open_without_reveal_commit_rejected() {
    let mut room = default_room(&[1, 2]);
    let now = t0();
    let (id, o) = open_remove(&mut room, uid(1), Direction::Yes, 1, now);
    let t = at_opening(&room, now);
    let err = room
        .apply(Command::Open { user: uid(1), proposal: id, opening: o }, t)
        .unwrap_err();
    assert_eq!(err, Error::NoRevealCommit);
}

#[test]
fn missing_proposal() {
    let mut room = default_room(&[1]);
    let err = room
        .apply(Command::Settle { proposal: ProposalId::from_byte(1) }, Timestamp::from_millis(0))
        .unwrap_err();
    assert_eq!(err, Error::ProposalNotFound);
}

// ---------------------------------------------------------------------------
// Room-wide invariants
// ---------------------------------------------------------------------------

#[test]
fn genesis_balances() {
    let room = default_room(&[1, 2, 3]);
    assert_eq!(room.balance(&uid(1)), Amount::token());
    assert_eq!(room.balance(&uid(2)), Amount::token());
    assert_eq!(room.balance(&uid(3)), Amount::token());
    assert_eq!(room.balance(&uid(4)), Amount::zero());
    assert_eq!(room.supply(), tokens(3));
}

#[test]
fn whale_threshold_weight_is_concave_payout_is_linear() {
    let founders: Vec<UserId> = (1..=10).map(uid).collect();
    let mut room = Room::genesis(Genesis::new(founders, RoomParams::defaults()).unwrap()).unwrap();
    let now = t0();
    let (id, o_alice) = open_remove(&mut room, uid(1), Direction::Yes, 1, now);
    for n in 2..=9u8 {
        commit_paid(&mut room, uid(n), id, Direction::No, n, Amount::token(), now);
    }
    reveal_and_open(&mut room, uid(1), id, &o_alice, Amount::token(), now);
    let entry = settle(&mut room, id, now);
    assert_eq!(entry.outcome, OutcomeKind::YesExecuted);
    assert_eq!(room.balance(&uid(1)), tokens(9));
    assert_eq!(room.balance(&uid(10)), Amount::token());

    let now2 = Timestamp::from_millis(now.millis() + 80_000_000);
    let (id2, o10) = open_with(
        &mut room,
        uid(10),
        Target::Message(msg(2)),
        Action::RemoveMessage,
        Direction::No,
        10,
        now2,
    );
    let o_w = commit_paid(&mut room, uid(1), id2, Direction::Yes, 11, tokens(9), now2);
    reveal_and_open(&mut room, uid(10), id2, &o10, Amount::token(), now2);
    reveal_and_open(&mut room, uid(1), id2, &o_w, tokens(9), now2);
    let e2 = settle(&mut room, id2, now2);
    assert_eq!(e2.outcome, OutcomeKind::YesExecuted);
    assert_eq!(e2.payouts.len(), 1);
    assert_eq!(e2.payouts[0].user, uid(1));
    assert_eq!(e2.payouts[0].amount, Amount::token());
    assert_eq!(room.balance(&uid(1)), tokens(10));
    assert_eq!(room.balance(&uid(10)), Amount::zero());
}

#[test]
fn free_mint_is_not_additive() {
    let mut room = default_room(&[1, 2]);
    let now = t0();
    let (id, o) = open_remove(&mut room, uid(1), Direction::Yes, 1, now);
    let free = commit_free(&mut room, uid(9), id, Direction::Yes, 9, now);
    reveal_and_open(&mut room, uid(1), id, &o, Amount::token(), now);
    reveal_and_open(&mut room, uid(9), id, &free, Amount::zero(), now);
    settle(&mut room, id, now);
    assert_eq!(room.balance(&uid(9)), Amount::token());
    assert!(!room.can_free_commit(&uid(9)));
}

// ---------------------------------------------------------------------------
// Replay from the log
// ---------------------------------------------------------------------------

#[test]
fn from_log_matches_live_after_mixed_sequence() {
    let mut live = default_room(&[1, 2, 3]);
    let now = t0();

    let (id, o1) = open_remove(&mut live, uid(1), Direction::Yes, 1, now);
    let o2 = commit_paid(&mut live, uid(2), id, Direction::No, 2, Amount::token(), now);
    let free = commit_free(&mut live, uid(9), id, Direction::No, 9, now);
    reveal_and_open(&mut live, uid(1), id, &o1, Amount::token(), now);
    reveal_and_open(&mut live, uid(2), id, &o2, Amount::token(), now);
    reveal_and_open(&mut live, uid(9), id, &free, Amount::zero(), now);
    settle(&mut live, id, now);

    let now2 = Timestamp::from_millis(now.millis() + 50_000_000);
    let (id2, o3) = open_restrict(
        &mut live,
        uid(2),
        uid(8),
        DurationSecs::from_secs(120),
        Direction::Yes,
        3,
        now2,
    );
    reveal_and_open(&mut live, uid(2), id2, &o3, Amount::token(), now2);
    settle(&mut live, id2, now2);

    let rebuilt = Room::from_log(
        Genesis::new(vec![uid(1), uid(2), uid(3)], RoomParams::defaults()).unwrap(),
        live.settlements().to_vec(),
    )
    .unwrap();

    for n in 1..=9u8 {
        let u = uid(n);
        assert_eq!(live.balance(&u), rebuilt.balance(&u), "balance {n}");
    }
    assert_eq!(live.supply(), rebuilt.supply());
    let t = at_settle(&live, now2);
    assert_eq!(
        live.effective_restriction(&uid(8), t),
        rebuilt.effective_restriction(&uid(8), t)
    );
    assert_eq!(rebuilt.open_proposals().len(), 0);
}

#[test]
fn tampered_settlement_rejected() {
    let mut live = default_room(&[1, 2]);
    let now = t0();
    let (id, o) = open_remove(&mut live, uid(1), Direction::Yes, 1, now);
    reveal_and_open(&mut live, uid(1), id, &o, Amount::token(), now);
    settle(&mut live, id, now);

    let mut entries = live.settlements().to_vec();
    entries[0].burned = Amount::from_subunits(99);

    let err = Room::from_log(
        Genesis::new(vec![uid(1), uid(2)], RoomParams::defaults()).unwrap(),
        entries,
    )
    .unwrap_err();
    assert_eq!(err, Error::SettlementHashMismatch);
}

#[test]
fn broken_chain_rejected() {
    let mut live = default_room(&[1, 2]);
    let now = t0();
    let (id, o) = open_remove(&mut live, uid(1), Direction::Yes, 1, now);
    reveal_and_open(&mut live, uid(1), id, &o, Amount::token(), now);
    settle(&mut live, id, now);

    let mut entries = live.settlements().to_vec();
    entries[0].prev_hash = futarch::types::Hash::from_byte(99);
    entries[0].this_hash = entries[0].compute_hash();

    let err = Room::from_log(
        Genesis::new(vec![uid(1), uid(2)], RoomParams::defaults()).unwrap(),
        entries,
    )
    .unwrap_err();
    assert_eq!(err, Error::BrokenHashChain);
}

// ---------------------------------------------------------------------------
// Restrictions
// ---------------------------------------------------------------------------

#[test]
fn longer_later_overrides_and_restarts_clock() {
    let mut room = default_room(&[1, 2, 3]);
    let target = uid(9);
    let now = t0();
    let (id, o) =
        open_restrict(&mut room, uid(1), target, DurationSecs::from_secs(3_600), Direction::Yes, 1, now);
    reveal_and_open(&mut room, uid(1), id, &o, Amount::token(), now);
    let e1 = settle(&mut room, id, now);
    assert_eq!(e1.outcome, OutcomeKind::YesExecuted);
    let short = room.effective_restriction(&target, at_settle(&room, now)).unwrap();
    assert_eq!(short.duration, DurationSecs::from_secs(3_600));

    let now2 = Timestamp::from_millis(at_settle(&room, now).millis() + 1);
    let (id2, o2) =
        open_restrict(&mut room, uid(2), target, DurationSecs::from_secs(7_200), Direction::Yes, 2, now2);
    reveal_and_open(&mut room, uid(2), id2, &o2, Amount::token(), now2);
    settle(&mut room, id2, now2);
    let exec2 = at_settle(&room, now2);
    let long = room.effective_restriction(&target, exec2).unwrap();
    assert_eq!(long.duration, DurationSecs::from_secs(7_200));
    assert_eq!(long.start, exec2);
}

#[test]
fn shorter_yes_pays_but_does_not_shorten() {
    let mut room = default_room(&[1, 2, 3]);
    let target = uid(9);
    let now = t0();
    let (id, o) =
        open_restrict(&mut room, uid(1), target, DurationSecs::from_secs(3_600), Direction::Yes, 1, now);
    reveal_and_open(&mut room, uid(1), id, &o, Amount::token(), now);
    settle(&mut room, id, now);

    let now2 = Timestamp::from_millis(at_settle(&room, now).millis() + 1);
    let (id2, o2) =
        open_restrict(&mut room, uid(2), target, DurationSecs::from_secs(60), Direction::Yes, 2, now2);
    reveal_and_open(&mut room, uid(2), id2, &o2, Amount::token(), now2);
    let e2 = settle(&mut room, id2, now2);
    assert_eq!(e2.outcome, OutcomeKind::YesExecuted);
    assert!(e2.executed_restriction.is_none());
    let active = room.effective_restriction(&target, at_settle(&room, now2)).unwrap();
    assert_eq!(active.duration, DurationSecs::from_secs(3_600));
    assert_eq!(active.start, at_settle(&room, now));
}

#[test]
fn expiry_restores_send_rights() {
    let mut room = default_room(&[1, 2]);
    let target = uid(9);
    let now = t0();
    let (id, o) =
        open_restrict(&mut room, uid(1), target, DurationSecs::from_secs(1), Direction::Yes, 1, now);
    reveal_and_open(&mut room, uid(1), id, &o, Amount::token(), now);
    settle(&mut room, id, now);
    let start = at_settle(&room, now);
    assert!(room.effective_restriction(&target, start).is_some());
    assert!(room
        .effective_restriction(&target, Timestamp::from_millis(start.millis() + 1_000))
        .is_none());
}

#[test]
fn restriction_permanent_never_expires() {
    let mut room = default_room(&[1, 2]);
    let target = uid(9);
    let now = t0();
    let (id, o) =
        open_restrict(&mut room, uid(1), target, DurationSecs::permanent(), Direction::Yes, 1, now);
    reveal_and_open(&mut room, uid(1), id, &o, Amount::token(), now);
    settle(&mut room, id, now);
    assert!(room.effective_restriction(&target, Timestamp::from_millis(u64::MAX)).is_some());
}

// ---------------------------------------------------------------------------
// Settlement
// ---------------------------------------------------------------------------

#[test]
fn unopposed_opened_yes_executes() {
    let mut room = default_room(&[1, 2, 3]);
    let now = t0();
    let (id, o) = open_remove(&mut room, uid(1), Direction::Yes, 1, now);
    reveal_and_open(&mut room, uid(1), id, &o, Amount::token(), now);
    let entry = settle(&mut room, id, now);
    assert_eq!(entry.outcome, OutcomeKind::YesExecuted);
    assert_eq!(room.balance(&uid(1)), Amount::token());
    assert!(room.proposal(&id).is_none());
}

#[test]
fn unopened_lock_is_forfeited_and_no_wins_by_default() {
    let mut room = default_room(&[1, 2, 3]);
    let now = t0();
    let (id, _) = open_remove(&mut room, uid(1), Direction::Yes, 1, now);
    let entry = settle(&mut room, id, now);
    assert_eq!(entry.outcome, OutcomeKind::NoDefault);
    assert_eq!(entry.burned, Amount::token());
    assert_eq!(room.balance(&uid(1)), Amount::zero());
    assert_eq!(room.supply(), tokens(2));
}

#[test]
fn settle_with_zero_openings_still_runs() {
    let mut room = default_room(&[1, 2]);
    let now = t0();
    let (id, _) = open_remove(&mut room, uid(1), Direction::Yes, 1, now);
    let _ = settle(&mut room, id, now);
    assert_eq!(room.settlements().len(), 1);
    assert_eq!(room.open_proposals().len(), 0);
}

#[test]
fn split_decision_equal_weights_defaults_to_no() {
    let mut room = default_room(&[1, 2, 3]);
    let now = t0();
    let (id, o1) = open_remove(&mut room, uid(1), Direction::Yes, 1, now);
    let o2 = commit_paid(&mut room, uid(2), id, Direction::No, 2, Amount::token(), now);
    reveal_and_open(&mut room, uid(1), id, &o1, Amount::token(), now);
    reveal_and_open(&mut room, uid(2), id, &o2, Amount::token(), now);
    let entry = settle(&mut room, id, now);
    assert_eq!(entry.outcome, OutcomeKind::NoDefault);
    assert_eq!(room.balance(&uid(1)), Amount::zero());
    assert_eq!(room.balance(&uid(2)), tokens(2));
}

#[test]
fn two_yes_one_no_executes() {
    let mut room = default_room(&[1, 2, 3]);
    let now = t0();
    let (id, o1) = open_remove(&mut room, uid(1), Direction::Yes, 1, now);
    let o2 = commit_paid(&mut room, uid(2), id, Direction::No, 2, Amount::token(), now);
    let o3 = commit_paid(&mut room, uid(3), id, Direction::Yes, 3, Amount::token(), now);
    reveal_and_open(&mut room, uid(1), id, &o1, Amount::token(), now);
    reveal_and_open(&mut room, uid(2), id, &o2, Amount::token(), now);
    reveal_and_open(&mut room, uid(3), id, &o3, Amount::token(), now);
    let entry = settle(&mut room, id, now);
    assert_eq!(entry.outcome, OutcomeKind::YesExecuted);
    assert_eq!(entry.payouts.len(), 2);
    assert_eq!(entry.payouts[0].amount, Amount::from_subunits(Amount::token().subunits() / 2));
    assert_eq!(room.balance(&uid(2)), Amount::zero());
    assert_eq!(
        room.balance(&uid(1)),
        Amount::from_subunits(Amount::token().subunits() + Amount::token().subunits() / 2)
    );
}

#[test]
fn free_commit_correct_mints_one_and_gets_no_pot() {
    let mut room = default_room(&[1, 2]);
    let now = t0();
    let newbie = uid(9);
    let (id, o1) = open_remove(&mut room, uid(1), Direction::Yes, 1, now);
    let free = commit_free(&mut room, newbie, id, Direction::Yes, 9, now);
    reveal_and_open(&mut room, uid(1), id, &o1, Amount::token(), now);
    reveal_and_open(&mut room, newbie, id, &free, Amount::zero(), now);
    let entry = settle(&mut room, id, now);
    assert_eq!(entry.outcome, OutcomeKind::YesExecuted);
    assert_eq!(entry.free_mints, vec![newbie]);
    assert!(entry.payouts.iter().all(|p| p.user != newbie));
    assert_eq!(room.balance(&newbie), Amount::token());
    assert_eq!(room.supply(), tokens(3));
}

#[test]
fn free_commit_wrong_side_mints_nothing() {
    let mut room = default_room(&[1, 2]);
    let now = t0();
    let newbie = uid(9);
    let (id, o1) = open_remove(&mut room, uid(1), Direction::Yes, 1, now);
    let free = commit_free(&mut room, newbie, id, Direction::No, 9, now);
    reveal_and_open(&mut room, uid(1), id, &o1, Amount::token(), now);
    reveal_and_open(&mut room, newbie, id, &free, Amount::zero(), now);
    let entry = settle(&mut room, id, now);
    assert_eq!(entry.outcome, OutcomeKind::YesExecuted);
    assert!(entry.free_mints.is_empty());
    assert_eq!(room.balance(&newbie), Amount::zero());
}

#[test]
fn unopened_free_commit_mints_nothing() {
    let mut room = default_room(&[1, 2]);
    let now = t0();
    let (id, o1) = open_remove(&mut room, uid(1), Direction::Yes, 1, now);
    commit_free(&mut room, uid(9), id, Direction::Yes, 9, now);
    reveal_and_open(&mut room, uid(1), id, &o1, Amount::token(), now);
    let entry = settle(&mut room, id, now);
    assert!(entry.free_mints.is_empty());
    assert_eq!(room.balance(&uid(9)), Amount::zero());
}

#[test]
fn second_outstanding_free_commit_rejected() {
    let mut room = default_room(&[1, 2, 3]);
    let now = t0();
    let (id_a, _) = open_remove(&mut room, uid(1), Direction::Yes, 1, now);
    let (id_b, _) = open_with(
        &mut room,
        uid(2),
        Target::Message(msg(2)),
        Action::RemoveMessage,
        Direction::Yes,
        2,
        now,
    );
    commit_free(&mut room, uid(9), id_a, Direction::Yes, 9, now);
    let err = room
        .apply(
            Command::CommitFree {
                user: uid(9),
                proposal: id_b,
                commit: opening(Direction::Yes, 10).free_commitment(),
            },
            now,
        )
        .unwrap_err();
    assert_eq!(err, Error::OutstandingFreeCommit);
}

#[test]
fn holder_cannot_free_commit() {
    let mut room = default_room(&[1, 2]);
    let now = t0();
    let (id, _) = open_remove(&mut room, uid(1), Direction::Yes, 1, now);
    let err = room
        .apply(
            Command::CommitFree {
                user: uid(2),
                proposal: id,
                commit: opening(Direction::Yes, 2).free_commitment(),
            },
            now,
        )
        .unwrap_err();
    assert_eq!(err, Error::BalanceNotZero);
}

#[test]
fn user_returning_to_zero_may_free_commit_again() {
    let mut room = default_room(&[1, 2]);
    let now = t0();
    let (id, _) = open_remove(&mut room, uid(1), Direction::Yes, 1, now);
    settle(&mut room, id, now);
    assert_eq!(room.balance(&uid(1)), Amount::zero());
    assert!(room.can_free_commit(&uid(1)));
    assert!(!room.can_open(&uid(1)));

    let now2 = Timestamp::from_millis(now.millis() + 1);
    let (id2, o2) = open_remove(&mut room, uid(2), Direction::Yes, 2, now2);
    let free = commit_free(&mut room, uid(1), id2, Direction::Yes, 11, now2);
    reveal_and_open(&mut room, uid(2), id2, &o2, Amount::token(), now2);
    reveal_and_open(&mut room, uid(1), id2, &free, Amount::zero(), now2);
    settle(&mut room, id2, now2);
    assert_eq!(room.balance(&uid(1)), Amount::token());
}

#[test]
fn cannot_settle_before_opening_deadline() {
    let mut room = default_room(&[1, 2]);
    let now = t0();
    let (id, _) = open_remove(&mut room, uid(1), Direction::Yes, 1, now);
    let err = room.apply(Command::Settle { proposal: id }, now).unwrap_err();
    assert_eq!(err, Error::NotYetSettlable);
}

#[test]
fn empty_winning_side_burns_pot() {
    let mut room = default_room(&[1, 2, 3]);
    let now = t0();
    let (id, _) = open_remove(&mut room, uid(1), Direction::Yes, 1, now);
    let entry = settle(&mut room, id, now);
    assert_eq!(entry.outcome, OutcomeKind::NoDefault);
    assert!(entry.payouts.is_empty());
    assert_eq!(entry.burned, Amount::token());
}
