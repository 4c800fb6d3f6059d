//! Further scenarios: every rejection the room gives, the hashing primitives on
//! known vectors, and the library's laws on concrete values.

use futarch::balances::Balances;
use futarch::crypto::{hash_tagged, sha256};
use futarch::error::Error;
use futarch::restriction::effective_restriction;
use futarch::{
    Action, Amount, Command, Direction, DurationSecs, Genesis, MessageId, Opening, Outcome,
    OutcomeKind, Payout, Phase, ProposalId, Restriction, RevealCommit, Room, RoomParams, Salt,
    SettlementEntry, Target, Timestamp, UserId,
};

fn uid(n: u8) -> UserId {
    UserId::from_byte(n)
}

fn room_of(founders: &[u8]) -> Room {
    let founders: Vec<UserId> = founders.iter().map(|n| uid(*n)).collect();
    Room::genesis(Genesis::new(founders, RoomParams::defaults()).unwrap()).unwrap()
}

fn reveal_at(room: &Room, opened: Timestamp) -> Timestamp {
    opened.saturating_add_millis(room.params().betting_window_ms)
}

fn opening_at(room: &Room, opened: Timestamp) -> Timestamp {
    reveal_at(room, opened).saturating_add_millis(room.params().commit_to_reveal_window_ms)
}

fn settle_at(room: &Room, opened: Timestamp) -> Timestamp {
    opening_at(room, opened).saturating_add_millis(room.params().opening_window_ms)
}

fn open_on(room: &mut Room, proposer: u8, message: u8, dir: Direction, salt: u8, now: Timestamp) -> (ProposalId, Opening) {
    let o = Opening::new(dir, Salt::from_byte(salt));
    let out = room
        .apply(
            Command::OpenProposal {
                proposer: uid(proposer),
                target: Target::Message(MessageId::from_byte(message)),
                action: Action::RemoveMessage,
                commit: o.paid_commitment(Amount::token()),
            },
            now,
        )
        .unwrap();
    match out {
        Outcome::ProposalOpened { id } => (id, o),
        other => panic!("unexpected {other:?}"),
    }
}

fn reveal_commit(room: &mut Room, user: u8, id: ProposalId, o: &Opening, amount: Amount, opened: Timestamp) -> Result<Outcome, Error> {
    let hash = o.reveal_hash(o.commit_hash(amount));
    let t = reveal_at(room, opened);
    room.apply(Command::CommitToReveal { user: uid(user), proposal: id, commit: RevealCommit { hash } }, t)
}

fn open_commitment(room: &mut Room, user: u8, id: ProposalId, o: &Opening, opened: Timestamp) -> Result<Outcome, Error> {
    let t = opening_at(room, opened);
    room.apply(Command::Open { user: uid(user), proposal: id, opening: *o }, t)
}

fn hex(bytes: &[u8]) -> String {
    bytes.iter().map(|b| format!("{b:02x}")).collect()
}

// ---- rejections not met elsewhere ----

#[test]
fn second_paid_commitment_on_same_proposal_rejected() {
    // uid(2) wins the first proposal and holds two tokens.
    let mut room = room_of(&[1, 2, 3]);
    let now = Timestamp::from_millis(1_000_000);
    let (id, o1) = open_on(&mut room, 1, 1, Direction::Yes, 1, now);
    let o2 = Opening::new(Direction::No, Salt::from_byte(2));
    room.apply(Command::CommitPaid { user: uid(2), proposal: id, commit: o2.paid_commitment(Amount::token()) }, now)
        .unwrap();
    reveal_commit(&mut room, 1, id, &o1, Amount::token(), now).unwrap();
    reveal_commit(&mut room, 2, id, &o2, Amount::token(), now).unwrap();
    open_commitment(&mut room, 1, id, &o1, now).unwrap();
    open_commitment(&mut room, 2, id, &o2, now).unwrap();
    let t = settle_at(&room, now);
    room.apply(Command::Settle { proposal: id }, t).unwrap();
    assert_eq!(room.balance(&uid(2)), Amount::from_tokens(2).unwrap());

    let now2 = Timestamp::from_millis(now.millis() + 90_000_000);
    let (id2, _) = open_on(&mut room, 3, 2, Direction::Yes, 3, now2);
    let c = Opening::new(Direction::No, Salt::from_byte(4));
    room.apply(Command::CommitPaid { user: uid(2), proposal: id2, commit: c.paid_commitment(Amount::token()) }, now2)
        .unwrap();
    assert_eq!(room.available(&uid(2)), Amount::token());
    let err = room
        .apply(Command::CommitPaid { user: uid(2), proposal: id2, commit: c.paid_commitment(Amount::token()) }, now2)
        .unwrap_err();
    assert_eq!(err, Error::AlreadyCommitted);
}

#[test]
fn second_reveal_commit_rejected() {
    let mut room = room_of(&[1, 2]);
    let now = Timestamp::from_millis(5_000);
    let (id, o) = open_on(&mut room, 1, 1, Direction::Yes, 1, now);
    assert!(matches!(
        reveal_commit(&mut room, 1, id, &o, Amount::token(), now).unwrap(),
        Outcome::RevealCommitted { .. }
    ));
    let err = reveal_commit(&mut room, 1, id, &o, Amount::token(), now).unwrap_err();
    assert_eq!(err, Error::AlreadyRevealCommitted);
}

#[test]
fn second_opening_rejected() {
    let mut room = room_of(&[1, 2]);
    let now = Timestamp::from_millis(5_000);
    let (id, o) = open_on(&mut room, 1, 1, Direction::No, 1, now);
    reveal_commit(&mut room, 1, id, &o, Amount::token(), now).unwrap();
    let first = open_commitment(&mut room, 1, id, &o, now).unwrap();
    assert_eq!(first, Outcome::Opened { proposal: id, user: uid(1), direction: Direction::No });
    let err = open_commitment(&mut room, 1, id, &o, now).unwrap_err();
    assert_eq!(err, Error::AlreadyOpened);
}

#[test]
fn reveal_without_commitment_rejected() {
    let mut room = room_of(&[1, 2]);
    let now = Timestamp::from_millis(5_000);
    let (id, o) = open_on(&mut room, 1, 1, Direction::Yes, 1, now);
    let err = reveal_commit(&mut room, 2, id, &o, Amount::token(), now).unwrap_err();
    assert_eq!(err, Error::NoCommitment);
}

#[test]
fn forfeits_beyond_u64_overflow() {
    let g = Genesis::new(vec![uid(1)], RoomParams::defaults()).unwrap();
    let mut b = Balances::from_genesis(&g);
    let huge = Amount::from_subunits(u64::MAX);
    let entry = SettlementEntry::new(
        g.hash(),
        ProposalId::from_byte(1),
        Target::Message(MessageId::from_byte(1)),
        Action::RemoveMessage,
        OutcomeKind::NoDefault,
        vec![],
        vec![Payout { user: uid(1), amount: huge }, Payout { user: uid(2), amount: huge }],
        vec![],
        Amount::zero(),
        None,
    );
    assert_eq!(b.apply_settlement(&entry).unwrap_err(), Error::Overflow);
}

#[test]
fn log_that_overdraws_a_founder_is_refused() {
    let g = Genesis::new(vec![uid(1), uid(2)], RoomParams::defaults()).unwrap();
    let two = Amount::from_tokens(2).unwrap();
    let entry = SettlementEntry::new(
        g.hash(),
        ProposalId::from_byte(1),
        Target::Message(MessageId::from_byte(1)),
        Action::RemoveMessage,
        OutcomeKind::NoDefault,
        vec![],
        vec![Payout { user: uid(1), amount: two }],
        vec![],
        two,
        None,
    );
    assert!(entry.verify_hash().is_ok());
    let err = Room::from_log(g, vec![entry]).unwrap_err();
    assert_eq!(err, Error::InsufficientBalance);
}

#[test]
fn commit_free_before_any_proposal_is_not_found() {
    let mut room = room_of(&[1]);
    let o = Opening::new(Direction::Yes, Salt::from_byte(1));
    let err = room
        .apply(
            Command::CommitFree { user: uid(7), proposal: ProposalId::from_byte(3), commit: o.free_commitment() },
            Timestamp::from_millis(0),
        )
        .unwrap_err();
    assert_eq!(err, Error::ProposalNotFound);
}

// ---- hashing ----

#[test]
fn sha256_matches_known_vectors() {
    assert_eq!(
        hex(sha256(b"abc").as_bytes()),
        "ba7816bf8f01cfea414140de5dae2223b00361a396177a9cb410ff61f20015ad"
    );
    assert_eq!(
        hex(sha256(b"").as_bytes()),
        "e3b0c44298fc1c149afbf4c8996fb92427ae41e4649b934ca495991b7852b855"
    );
}

#[test]
fn hash_tagged_frames_the_tag() {
    // length_prefixed("ab") = 00 00 00 02 'a' 'b', then the body 'c'.
    let framed = [0u8, 0, 0, 2, b'a', b'b', b'c'];
    assert_eq!(hash_tagged(b"ab", b"c"), sha256(&framed));
    assert_ne!(hash_tagged(b"ab", b"c"), sha256(b"abc"));
}

#[test]
fn commit_hash_depends_on_amount_direction_and_salt() {
    let o = Opening::new(Direction::Yes, Salt::from_byte(5));
    let base = o.commit_hash(Amount::token());
    assert_eq!(base, futarch::commit_hash(&o, Amount::token()));
    assert_ne!(base, o.commit_hash(Amount::from_subunits(1)));
    assert_ne!(base, Opening::new(Direction::No, Salt::from_byte(5)).commit_hash(Amount::token()));
    assert_ne!(base, Opening::new(Direction::Yes, Salt::from_byte(6)).commit_hash(Amount::token()));
    assert_eq!(o.free_commitment().hash, o.commit_hash(Amount::zero()));
    assert_eq!(o.reveal_hash(base), futarch::reveal_hash(&o, base));
    assert_ne!(o.reveal_hash(base), base);
}

// ---- laws on concrete values ----

#[test]
fn genesis_supply_counts_each_founder_once() {
    let room = room_of(&[4, 5, 6, 7]);
    assert_eq!(room.supply(), Amount::from_tokens(4).unwrap());
    for n in [4u8, 5, 6, 7] {
        assert_eq!(room.balance(&uid(n)), Amount::token());
    }
    assert_eq!(room.balance(&uid(8)), Amount::zero());
}

#[test]
fn replay_agrees_with_cached_balances() {
    let g = Genesis::new(vec![uid(1), uid(2)], RoomParams::defaults()).unwrap();
    let e = SettlementEntry::new(
        g.hash(),
        ProposalId::from_byte(1),
        Target::Message(MessageId::from_byte(1)),
        Action::RemoveMessage,
        OutcomeKind::NoDefault,
        vec![Payout { user: uid(2), amount: Amount::token() }],
        vec![Payout { user: uid(1), amount: Amount::token() }],
        vec![uid(9), uid(9)],
        Amount::zero(),
        None,
    );
    let mut cached = Balances::from_genesis(&g);
    cached.apply_settlement(&e).unwrap();
    let replayed = futarch::balances::replay(&g, &[e.clone()]).unwrap();
    for n in [1u8, 2, 9] {
        assert_eq!(cached.get(&uid(n)), replayed.get(&uid(n)));
    }
    assert_eq!(replayed.get(&uid(2)), Amount::from_tokens(2).unwrap());
    assert_eq!(replayed.get(&uid(9)), Amount::token());
    assert_eq!(replayed.supply(), Amount::from_tokens(3).unwrap());
    let room = Room::from_log(g, vec![e]).unwrap();
    assert_eq!(room.balance(&uid(9)), Amount::token());
    assert_eq!(room.supply(), Amount::from_tokens(3).unwrap());
}

fn restricting(prev: futarch::types::Hash, r: Option<Restriction>) -> SettlementEntry {
    SettlementEntry::new(
        prev,
        ProposalId::from_byte(1),
        Target::User(uid(9)),
        Action::Restrict { duration: DurationSecs::from_secs(60) },
        OutcomeKind::YesExecuted,
        vec![],
        vec![],
        vec![],
        Amount::zero(),
        r,
    )
}

#[test]
fn appending_an_entry_never_lifts_a_restriction() {
    let long = Restriction { user: uid(9), duration: DurationSecs::from_secs(600), start: Timestamp::from_millis(0) };
    let short = Restriction { user: uid(9), duration: DurationSecs::from_secs(60), start: Timestamp::from_millis(10) };
    let e1 = restricting(futarch::types::Hash::from_byte(0), Some(long));
    let e2 = restricting(e1.this_hash, Some(short));
    let e3 = restricting(e2.this_hash, None);
    let at = Timestamp::from_millis(20_000);
    let one = effective_restriction(&[e1.clone()], &uid(9), at).unwrap();
    let two = effective_restriction(&[e1.clone(), e2.clone()], &uid(9), at).unwrap();
    let three = effective_restriction(&[e1, e2, e3], &uid(9), at).unwrap();
    assert_eq!(one, long);
    assert_eq!(two, long);
    assert_eq!(three, long);
    assert!(effective_restriction(&[], &uid(9), at).is_none());
}

#[test]
fn longer_restriction_takes_over_from_its_start() {
    let first = Restriction { user: uid(9), duration: DurationSecs::from_secs(60), start: Timestamp::from_millis(0) };
    let later = Restriction { user: uid(9), duration: DurationSecs::from_secs(120), start: Timestamp::from_millis(30_000) };
    let e1 = restricting(futarch::types::Hash::from_byte(0), Some(first));
    let e2 = restricting(e1.this_hash, Some(later));
    let log = [e1, e2];
    assert_eq!(effective_restriction(&log, &uid(9), Timestamp::from_millis(30_000)), Some(later));
    // The later one runs to 150 s, past the first one's end at 60 s.
    assert_eq!(effective_restriction(&log, &uid(9), Timestamp::from_millis(149_999)), Some(later));
    assert_eq!(effective_restriction(&log, &uid(9), Timestamp::from_millis(150_000)), None);
    assert_eq!(effective_restriction(&log, &uid(8), Timestamp::from_millis(30_000)), None);
}

#[test]
fn tick_sets_the_phase_the_clock_gives() {
    let mut room = room_of(&[1, 2]);
    let now = Timestamp::from_millis(0);
    let (id, _) = open_on(&mut room, 1, 1, Direction::Yes, 1, now);
    let late = settle_at(&room, now);
    let outs = room.tick(late);
    assert_eq!(outs, vec![Outcome::PhaseChanged { proposal: id, phase: Phase::AwaitingSettlement }]);
    assert!(room.tick(late).is_empty());
    // The phase is a function of the clock: an earlier clock gives an earlier phase.
    let outs = room.tick(now);
    assert_eq!(outs, vec![Outcome::PhaseChanged { proposal: id, phase: Phase::Betting }]);
}

#[test]
fn free_committers_never_share_the_pot() {
    // uid(1) opens Yes; uid(2) stakes No and never opens; uid(9) free-commits Yes.
    let mut room = room_of(&[1, 2]);
    let now = Timestamp::from_millis(0);
    let (id, o1) = open_on(&mut room, 1, 1, Direction::Yes, 1, now);
    let o2 = Opening::new(Direction::No, Salt::from_byte(2));
    room.apply(Command::CommitPaid { user: uid(2), proposal: id, commit: o2.paid_commitment(Amount::token()) }, now)
        .unwrap();
    let f = Opening::new(Direction::Yes, Salt::from_byte(9));
    room.apply(Command::CommitFree { user: uid(9), proposal: id, commit: f.free_commitment() }, now).unwrap();
    reveal_commit(&mut room, 1, id, &o1, Amount::token(), now).unwrap();
    reveal_commit(&mut room, 9, id, &f, Amount::zero(), now).unwrap();
    open_commitment(&mut room, 1, id, &o1, now).unwrap();
    open_commitment(&mut room, 9, id, &f, now).unwrap();
    let t = settle_at(&room, now);
    let entry = match room.apply(Command::Settle { proposal: id }, t).unwrap() {
        Outcome::Settled(e) => e,
        other => panic!("unexpected {other:?}"),
    };
    assert_eq!(entry.outcome, OutcomeKind::YesExecuted);
    assert_eq!(entry.forfeitures, vec![Payout { user: uid(2), amount: Amount::token() }]);
    assert_eq!(entry.payouts, vec![Payout { user: uid(1), amount: Amount::token() }]);
    assert_eq!(entry.free_mints, vec![uid(9)]);
    assert_eq!(entry.burned, Amount::zero());
    assert_eq!(room.balance(&uid(1)), Amount::from_tokens(2).unwrap());
    assert_eq!(room.balance(&uid(9)), Amount::token());
    assert_eq!(room.supply(), Amount::from_tokens(3).unwrap());
}

#[test]
fn escrow_holds_across_concurrent_proposals() {
    // uid(2) wins a split decision and holds two tokens.
    let mut room = room_of(&[1, 2, 3]);
    let now = Timestamp::from_millis(1_000_000);
    let (id, o1) = open_on(&mut room, 1, 1, Direction::Yes, 1, now);
    let o2 = Opening::new(Direction::No, Salt::from_byte(2));
    room.apply(Command::CommitPaid { user: uid(2), proposal: id, commit: o2.paid_commitment(Amount::token()) }, now)
        .unwrap();
    reveal_commit(&mut room, 1, id, &o1, Amount::token(), now).unwrap();
    reveal_commit(&mut room, 2, id, &o2, Amount::token(), now).unwrap();
    open_commitment(&mut room, 1, id, &o1, now).unwrap();
    open_commitment(&mut room, 2, id, &o2, now).unwrap();
    let t = settle_at(&room, now);
    room.apply(Command::Settle { proposal: id }, t).unwrap();
    assert_eq!(room.balance(&uid(2)), Amount::from_tokens(2).unwrap());

    // uid(2) locks one token on uid(3)'s proposal and one on its own.
    let now2 = Timestamp::from_millis(now.millis() + 90_000_000);
    let (b, _) = open_on(&mut room, 3, 2, Direction::Yes, 3, now2);
    let (c, oc) = open_on(&mut room, 2, 3, Direction::Yes, 4, now2);
    let ob = Opening::new(Direction::No, Salt::from_byte(5));
    room.apply(Command::CommitPaid { user: uid(2), proposal: b, commit: ob.paid_commitment(Amount::token()) }, now2)
        .unwrap();
    assert_eq!(room.available(&uid(2)), Amount::zero());

    // Nobody opens on `b`: both stakes there are forfeited and burned.
    reveal_commit(&mut room, 2, c, &oc, Amount::token(), now2).unwrap();
    open_commitment(&mut room, 2, c, &oc, now2).unwrap();
    let t2 = settle_at(&room, now2);
    let eb = match room.apply(Command::Settle { proposal: b }, t2).unwrap() {
        Outcome::Settled(e) => e,
        other => panic!("unexpected {other:?}"),
    };
    assert_eq!(eb.outcome, OutcomeKind::NoDefault);
    assert_eq!(eb.burned, Amount::from_tokens(2).unwrap());
    // uid(2) keeps exactly the token still locked on `c`.
    assert_eq!(room.balance(&uid(2)), Amount::token());
    assert_eq!(room.available(&uid(2)), Amount::zero());
    let ec = match room.apply(Command::Settle { proposal: c }, t2).unwrap() {
        Outcome::Settled(e) => e,
        other => panic!("unexpected {other:?}"),
    };
    assert_eq!(ec.outcome, OutcomeKind::YesExecuted);
    assert_eq!(room.balance(&uid(2)), Amount::token());
    assert_eq!(room.available(&uid(2)), Amount::token());
    // Three founder tokens, less the two burned on `b`.
    assert_eq!(room.supply(), Amount::token());
}

#[test]
fn entry_lists_are_sorted_by_user_bytes() {
    let e = SettlementEntry::new(
        futarch::types::Hash::from_byte(0),
        ProposalId::from_byte(1),
        Target::Message(MessageId::from_byte(1)),
        Action::RemoveMessage,
        OutcomeKind::YesExecuted,
        vec![
            Payout { user: uid(9), amount: Amount::from_subunits(1) },
            Payout { user: uid(3), amount: Amount::from_subunits(2) },
            Payout { user: uid(9), amount: Amount::from_subunits(3) },
        ],
        vec![Payout { user: uid(7), amount: Amount::from_subunits(6) }],
        vec![uid(5), uid(4)],
        Amount::zero(),
        None,
    );
    // Sorted by user, equal users kept in their given order.
    assert_eq!(
        e.payouts,
        vec![
            Payout { user: uid(3), amount: Amount::from_subunits(2) },
            Payout { user: uid(9), amount: Amount::from_subunits(1) },
            Payout { user: uid(9), amount: Amount::from_subunits(3) },
        ]
    );
    assert_eq!(e.free_mints, vec![uid(4), uid(5)]);
    assert!(e.verify_hash().is_ok());
}

#[test]
fn entry_hash_ignores_only_this_hash() {
    let base = SettlementEntry::new(
        futarch::types::Hash::from_byte(0),
        ProposalId::from_byte(1),
        Target::User(uid(9)),
        Action::Restrict { duration: DurationSecs::from_secs(60) },
        OutcomeKind::YesExecuted,
        vec![Payout { user: uid(3), amount: Amount::from_subunits(2) }],
        vec![Payout { user: uid(4), amount: Amount::from_subunits(2) }],
        vec![uid(5)],
        Amount::zero(),
        None,
    );
    let mut other = base.clone();
    other.this_hash = futarch::types::Hash::from_byte(7);
    assert_eq!(other.compute_hash(), base.compute_hash());
    let mut moved = base.clone();
    moved.free_mints = vec![];
    assert_ne!(moved.compute_hash(), base.compute_hash());
    let mut shifted = base.clone();
    shifted.payouts = vec![];
    shifted.forfeitures = vec![
        Payout { user: uid(3), amount: Amount::from_subunits(2) },
        Payout { user: uid(4), amount: Amount::from_subunits(2) },
    ];
    assert_ne!(shifted.compute_hash(), base.compute_hash());
}

#[test]
fn replay_of_a_split_log_matches_the_whole() {
    let g = Genesis::new(vec![uid(1), uid(2)], RoomParams::defaults()).unwrap();
    let e1 = SettlementEntry::new(
        g.hash(),
        ProposalId::from_byte(1),
        Target::Message(MessageId::from_byte(1)),
        Action::RemoveMessage,
        OutcomeKind::NoDefault,
        vec![Payout { user: uid(2), amount: Amount::token() }],
        vec![Payout { user: uid(1), amount: Amount::token() }],
        vec![],
        Amount::zero(),
        None,
    );
    let e2 = SettlementEntry::new(
        e1.this_hash,
        ProposalId::from_byte(2),
        Target::Message(MessageId::from_byte(2)),
        Action::RemoveMessage,
        OutcomeKind::YesExecuted,
        vec![],
        vec![],
        vec![uid(1)],
        Amount::zero(),
        None,
    );
    let whole = futarch::balances::replay(&g, &[e1.clone(), e2.clone()]).unwrap();
    let mut stepwise = futarch::balances::replay(&g, &[e1]).unwrap();
    stepwise.apply_settlement(&e2).unwrap();
    for n in [1u8, 2, 3] {
        assert_eq!(whole.get(&uid(n)), stepwise.get(&uid(n)));
    }
    assert_eq!(whole.supply(), stepwise.supply());
    assert_eq!(whole.get(&uid(1)), Amount::token());
    assert_eq!(whole.get(&uid(2)), Amount::from_tokens(2).unwrap());
    assert_eq!(futarch::balances::replay(&g, &[]).unwrap().supply(), Amount::from_tokens(2).unwrap());
}

#[test]
fn crate_root_hash_is_the_digest_type() {
    let h: futarch::Hash = futarch::types::Hash::from_byte(4);
    assert_eq!(h.as_bytes()[0], 4);
}
