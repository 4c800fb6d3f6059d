//! Unit-level checks of amounts, encoding, hashing, parameters, thresholds,
//! payouts, restrictions, balances, genesis and the room.

use futarch::balances::Balances;
use futarch::crypto::hash_tagged;
use futarch::encode::{Encoder, TAG_COMMIT, TAG_REVEAL};
use futarch::params::{MS_PER_MIN, SECS_PER_DAY, SECS_PER_HOUR};
use futarch::payout::split_pot;
use futarch::restriction::{effective_restriction, supersedes};
use futarch::threshold::{decide, weight};
use futarch::{
    Action, Amount, Command, Direction, DurationSecs, Error, Genesis, MessageId, Opening, Outcome,
    OutcomeKind, Payout, ProposalId, Restriction, Room, RoomParams, Salt, SeverityClass,
    SettlementEntry, Target, Timestamp, UserId, DEFAULT_OPENING_WINDOW_MS, TOKEN,
};

// ---- amount ----

#[test]
fn token_constant_is_one_million() {
    assert_eq!(TOKEN, 1_000_000);
    assert_eq!(Amount::token().subunits(), TOKEN);
}

#[test]
fn from_tokens_multiplies() {
    assert_eq!(Amount::from_tokens(3).unwrap().subunits(), 3_000_000);
    assert!(Amount::from_tokens(u64::MAX).is_none());
}

#[test]
fn checked_arithmetic() {
    let a = Amount::from_subunits(10);
    let b = Amount::from_subunits(4);
    assert_eq!(a.checked_add(b).unwrap().subunits(), 14);
    assert_eq!(a.checked_sub(b).unwrap().subunits(), 6);
    assert!(a.checked_sub(Amount::from_subunits(11)).is_none());
    assert!(Amount::from_subunits(u64::MAX)
        .checked_add(Amount::from_subunits(1))
        .is_none());
}

#[test]
fn saturating_floor_and_cap() {
    assert_eq!(
        Amount::from_subunits(3).saturating_sub(Amount::from_subunits(10)),
        Amount::zero()
    );
    assert_eq!(
        Amount::from_subunits(u64::MAX).saturating_add(Amount::from_subunits(1)),
        Amount::from_subunits(u64::MAX)
    );
}

// ---- encoding and hashing ----

#[test]
fn length_prefix_is_big_endian() {
    let mut e = Encoder::new();
    e.bytes(b"ab");
    assert_eq!(e.as_slice(), &[0, 0, 0, 2, b'a', b'b']);
}

#[test]
fn u64_is_big_endian() {
    let mut e = Encoder::new();
    e.u64(0x0102_0304_0506_0708);
    assert_eq!(
        e.as_slice(),
        &[0x01, 0x02, 0x03, 0x04, 0x05, 0x06, 0x07, 0x08]
    );
}

#[test]
fn domain_separation_changes_digest() {
    let mut body = Encoder::new();
    body.u8(1);
    let a = hash_tagged(TAG_COMMIT.as_bytes(), body.as_slice());
    let b = hash_tagged(TAG_REVEAL.as_bytes(), body.as_slice());
    assert_ne!(a, b);
}

#[test]
fn same_tag_and_body_are_stable() {
    let mut e1 = Encoder::new();
    e1.u64(42);
    e1.bytes(b"salt");
    let a = hash_tagged(TAG_COMMIT.as_bytes(), e1.as_slice());
    let mut e2 = Encoder::new();
    e2.u64(42);
    e2.bytes(b"salt");
    let b = hash_tagged(TAG_COMMIT.as_bytes(), e2.as_slice());
    assert_eq!(a, b);
}

// ---- genesis ----

#[test]
fn rejects_empty_and_duplicates() {
    assert_eq!(
        Genesis::new(vec![], RoomParams::defaults()).unwrap_err(),
        Error::GenesisEmpty
    );
    let a = UserId::from_byte(1);
    assert_eq!(
        Genesis::new(vec![a, a], RoomParams::defaults()).unwrap_err(),
        Error::DuplicateFounder
    );
}

#[test]
fn hash_changes_with_founder_order() {
    let a = UserId::from_byte(1);
    let b = UserId::from_byte(2);
    let g1 = Genesis::new(vec![a, b], RoomParams::defaults()).unwrap();
    let g2 = Genesis::new(vec![b, a], RoomParams::defaults()).unwrap();
    assert_ne!(g1.hash(), g2.hash());
}

// ---- params ----

#[test]
fn classify_duration_buckets() {
    let p = RoomParams::defaults();
    assert_eq!(p.classify(Action::RemoveMessage), SeverityClass::MessageRemove);
    assert_eq!(
        p.classify(Action::Restrict {
            duration: DurationSecs::from_secs(SECS_PER_HOUR)
        }),
        SeverityClass::ShortRestrict
    );
    assert_eq!(
        p.classify(Action::Restrict {
            duration: DurationSecs::from_secs(SECS_PER_HOUR + 1)
        }),
        SeverityClass::MediumRestrict
    );
    assert_eq!(
        p.classify(Action::Restrict {
            duration: DurationSecs::from_secs(SECS_PER_DAY)
        }),
        SeverityClass::MediumRestrict
    );
    assert_eq!(
        p.classify(Action::Restrict {
            duration: DurationSecs::from_secs(SECS_PER_DAY + 1)
        }),
        SeverityClass::LongRestrict
    );
    assert_eq!(
        p.classify(Action::Restrict {
            duration: DurationSecs::from_secs(7 * SECS_PER_DAY)
        }),
        SeverityClass::LongRestrict
    );
    assert_eq!(
        p.classify(Action::Restrict {
            duration: DurationSecs::from_secs(7 * SECS_PER_DAY + 1)
        }),
        SeverityClass::LongRestrict
    );
    assert_eq!(
        p.classify(Action::Restrict {
            duration: DurationSecs::permanent()
        }),
        SeverityClass::PermanentRestrict
    );
}

#[test]
fn defaults_match_plan_table() {
    let p = RoomParams::defaults();
    assert_eq!(p.remove_message.ratio.numerator, 133);
    assert_eq!(p.remove_message.floor_bps, 500);
    assert_eq!(p.medium_restrict.ratio.numerator, 150);
    assert_eq!(p.medium_restrict.floor_bps, 800);
    assert_eq!(p.long_restrict.ratio.numerator, 175);
    assert_eq!(p.permanent_restrict.ratio.numerator, 200);
    assert_eq!(p.permanent_restrict.floor_bps, 2000);
    assert_eq!(p.betting_window_ms, 10 * MS_PER_MIN);
    assert_eq!(p.commit_to_reveal_window_ms, 3 * MS_PER_MIN);
    assert_eq!(p.opening_window_ms, DEFAULT_OPENING_WINDOW_MS);
}

// ---- thresholds ----

#[test]
fn isqrt_of_one_token_is_1000() {
    assert_eq!(weight(Amount::token()), 1000);
    assert_eq!(weight(Amount::from_tokens(9).unwrap()), 3000);
}

#[test]
fn just_below_ratio_defaults_to_no() {
    let t = RoomParams::defaults().threshold_for(Action::RemoveMessage);
    // 1.32x < 1.33x : 1320 vs 1000, 1320*100 = 132000 < 1000*133 = 133000
    let supply = Amount::from_tokens(10).unwrap();
    assert_eq!(decide(1320, 1000, supply, t), OutcomeKind::NoDefault);
    assert_eq!(decide(1330, 1000, supply, t), OutcomeKind::YesExecuted);
}

#[test]
fn ratio_met_but_floor_missed_defaults_to_no() {
    let t = RoomParams::defaults().threshold_for(Action::RemoveMessage);
    // Large supply -> high floor. isqrt(1e12) = 1e6, 5% = 50_000.
    let supply = Amount::from_subunits(1_000_000_000_000);
    assert_eq!(decide(2000, 0, supply, t), OutcomeKind::NoDefault);
    assert_eq!(decide(50_000, 0, supply, t), OutcomeKind::YesExecuted);
}

#[test]
fn whale_weight_is_concave() {
    let whale = weight(Amount::from_tokens(9).unwrap());
    let minnow = weight(Amount::token());
    assert_eq!(whale, 3 * minnow);
    assert_ne!(whale, 9 * minnow);
}

#[test]
fn severity_picks_stricter_permanent_bar() {
    let p = RoomParams::defaults();
    let supply = Amount::from_tokens(10).unwrap();
    // 1.33x passes message-remove, fails permanent (needs 2.00x).
    let yes = 1400;
    let no = 1000;
    assert_eq!(
        decide(yes, no, supply, p.threshold_for(Action::RemoveMessage)),
        OutcomeKind::YesExecuted
    );
    assert_eq!(
        decide(
            yes,
            no,
            supply,
            p.threshold_for(Action::Restrict {
                duration: DurationSecs::permanent()
            })
        ),
        OutcomeKind::NoDefault
    );
}

// ---- payouts ----

fn u(n: u8) -> UserId {
    UserId::from_byte(n)
}

#[test]
fn one_to_two_split() {
    let plan = split_pot(
        Amount::from_subunits(90),
        &[(u(1), Amount::from_subunits(10)), (u(2), Amount::from_subunits(20))],
    )
    .unwrap();
    assert_eq!(plan.payouts[0].user, u(1));
    assert_eq!(plan.payouts[0].amount.subunits(), 30);
    assert_eq!(plan.payouts[1].amount.subunits(), 60);
    assert_eq!(plan.burned, Amount::zero());
}

#[test]
fn remainder_is_burned() {
    let plan = split_pot(
        Amount::from_subunits(10),
        &[(u(1), Amount::from_subunits(1)), (u(2), Amount::from_subunits(1))],
    )
    .unwrap();
    assert_eq!(plan.payouts[0].amount.subunits(), 5);
    assert_eq!(plan.payouts[1].amount.subunits(), 5);
    assert_eq!(plan.burned, Amount::zero());

    let plan = split_pot(
        Amount::from_subunits(10),
        &[(u(1), Amount::from_subunits(1)), (u(2), Amount::from_subunits(2))],
    )
    .unwrap();
    // 10*1/3 = 3, 10*2/3 = 6, remainder 1 burned
    assert_eq!(plan.payouts[0].amount.subunits(), 3);
    assert_eq!(plan.payouts[1].amount.subunits(), 6);
    assert_eq!(plan.burned.subunits(), 1);
}

#[test]
fn empty_winner_burns_entire_pot() {
    let plan = split_pot(Amount::token(), &[]).unwrap();
    assert!(plan.payouts.is_empty());
    assert_eq!(plan.burned, Amount::token());
}

#[test]
fn whale_gets_linear_share() {
    let plan = split_pot(
        Amount::from_tokens(10).unwrap(),
        &[(u(1), Amount::from_tokens(9).unwrap()), (u(2), Amount::token())],
    )
    .unwrap();
    assert_eq!(plan.payouts[0].amount, Amount::from_tokens(9).unwrap());
    assert_eq!(plan.payouts[1].amount, Amount::token());
}

// ---- restrictions ----

fn restriction_entry(r: Option<Restriction>) -> SettlementEntry {
    SettlementEntry::new(
        futarch::types::Hash::from_byte(1),
        ProposalId::from_byte(2),
        Target::User(UserId::from_byte(1)),
        Action::Restrict {
            duration: r.map(|x| x.duration).unwrap_or(DurationSecs::from_secs(1)),
        },
        OutcomeKind::YesExecuted,
        vec![],
        vec![],
        vec![],
        Amount::zero(),
        r,
    )
}

#[test]
fn longer_later_overrides() {
    let user = UserId::from_byte(1);
    let short = Restriction {
        user,
        duration: DurationSecs::from_secs(60),
        start: Timestamp::from_millis(0),
    };
    let long = Restriction {
        user,
        duration: DurationSecs::from_secs(600),
        start: Timestamp::from_millis(10_000),
    };
    let log = [restriction_entry(Some(short)), restriction_entry(Some(long))];
    let now = Timestamp::from_millis(11_000);
    let got = effective_restriction(&log, &user, now).unwrap();
    assert_eq!(got.duration, long.duration);
    assert_eq!(got.start, long.start);
}

#[test]
fn shorter_does_not_override() {
    assert!(!supersedes(
        Some(Restriction {
            user: UserId::from_byte(1),
            duration: DurationSecs::from_secs(600),
            start: Timestamp::from_millis(0),
        }),
        DurationSecs::from_secs(60)
    ));
}

#[test]
fn expiry_clears() {
    let user = UserId::from_byte(1);
    let r = Restriction {
        user,
        duration: DurationSecs::from_secs(1),
        start: Timestamp::from_millis(0),
    };
    let log = [restriction_entry(Some(r))];
    assert!(effective_restriction(&log, &user, Timestamp::from_millis(999)).is_some());
    assert!(effective_restriction(&log, &user, Timestamp::from_millis(1_000)).is_none());
}

#[test]
fn permanent_never_expires() {
    let user = UserId::from_byte(1);
    let r = Restriction {
        user,
        duration: DurationSecs::permanent(),
        start: Timestamp::from_millis(0),
    };
    assert!(r.is_active(Timestamp::from_millis(u64::MAX)));
}

// ---- settlement entries ----

fn dummy_entry() -> SettlementEntry {
    SettlementEntry::new(
        futarch::types::Hash::from_byte(1),
        ProposalId::from_byte(2),
        Target::Message(MessageId::from_byte(3)),
        Action::RemoveMessage,
        OutcomeKind::NoDefault,
        vec![Payout {
            user: UserId::from_byte(9),
            amount: Amount::from_subunits(3),
        }],
        vec![Payout {
            user: UserId::from_byte(8),
            amount: Amount::from_subunits(5),
        }],
        vec![UserId::from_byte(4)],
        Amount::from_subunits(1),
        Some(Restriction {
            user: UserId::from_byte(7),
            duration: DurationSecs::from_secs(60),
            start: Timestamp::from_millis(10),
        }),
    )
}

#[test]
fn hash_covers_body() {
    let a = dummy_entry();
    assert_eq!(a.this_hash, a.compute_hash());
    let mut b = a.clone();
    b.burned = Amount::from_subunits(2);
    assert_ne!(a.compute_hash(), b.compute_hash());
}

#[test]
fn chain_detects_tamper() {
    let e1 = dummy_entry();
    let e2 = SettlementEntry::new(
        e1.this_hash,
        ProposalId::from_byte(5),
        Target::Message(MessageId::from_byte(3)),
        Action::RemoveMessage,
        OutcomeKind::YesExecuted,
        vec![],
        vec![],
        vec![],
        Amount::zero(),
        None,
    );
    assert!(futarch::settlement::verify_chain(e1.prev_hash, &[e1.clone(), e2.clone()]).is_ok());
    let mut broken = e2.clone();
    broken.prev_hash = futarch::types::Hash::from_byte(99);
    broken.this_hash = broken.compute_hash();
    assert_eq!(
        futarch::settlement::verify_chain(e1.prev_hash, &[e1, broken]).unwrap_err(),
        Error::BrokenHashChain
    );
}

// ---- balances ----

fn genesis_two() -> Genesis {
    Genesis::new(
        vec![UserId::from_byte(1), UserId::from_byte(2)],
        RoomParams::defaults(),
    )
    .unwrap()
}

#[test]
fn founders_get_one_token() {
    let g = genesis_two();
    let b = Balances::from_genesis(&g);
    assert_eq!(b.get(&UserId::from_byte(1)), Amount::token());
    assert_eq!(b.get(&UserId::from_byte(2)), Amount::token());
    assert_eq!(b.get(&UserId::from_byte(3)), Amount::zero());
    assert_eq!(b.supply(), Amount::from_tokens(2).unwrap());
}

#[test]
fn payouts_and_burns_update_supply() {
    let g = genesis_two();
    let mut b = Balances::from_genesis(&g);
    let loser = UserId::from_byte(1);
    let winner = UserId::from_byte(2);
    let entry = SettlementEntry::new(
        g.hash(),
        ProposalId::from_byte(1),
        Target::Message(MessageId::from_byte(1)),
        Action::RemoveMessage,
        OutcomeKind::NoDefault,
        vec![Payout {
            user: winner,
            amount: Amount::from_subunits(Amount::token().subunits() - 1),
        }],
        vec![Payout {
            user: loser,
            amount: Amount::token(),
        }],
        vec![],
        Amount::from_subunits(1),
        None,
    );
    b.apply_settlement(&entry).unwrap();
    assert_eq!(b.get(&loser), Amount::zero());
    assert_eq!(
        b.get(&winner).subunits(),
        Amount::token().subunits() + Amount::token().subunits() - 1
    );
    assert_eq!(
        b.supply().subunits(),
        Amount::from_tokens(2).unwrap().subunits() - 1
    );
}

#[test]
fn free_mint_is_set_not_add() {
    let g = genesis_two();
    let mut b = Balances::from_genesis(&g);
    let newbie = UserId::from_byte(9);
    let entry = SettlementEntry::new(
        futarch::types::Hash::from_byte(0),
        ProposalId::from_byte(1),
        Target::Message(MessageId::from_byte(1)),
        Action::RemoveMessage,
        OutcomeKind::YesExecuted,
        vec![],
        vec![],
        vec![newbie, newbie],
        Amount::zero(),
        None,
    );
    b.apply_settlement(&entry).unwrap();
    assert_eq!(b.get(&newbie), Amount::token());
    assert_eq!(b.supply(), Amount::from_tokens(3).unwrap());
}

#[test]
fn mismatched_burn_is_rejected() {
    let g = genesis_two();
    let mut b = Balances::from_genesis(&g);
    let entry = SettlementEntry::new(
        g.hash(),
        ProposalId::from_byte(1),
        Target::Message(MessageId::from_byte(1)),
        Action::RemoveMessage,
        OutcomeKind::NoDefault,
        vec![],
        vec![Payout {
            user: UserId::from_byte(1),
            amount: Amount::token(),
        }],
        vec![],
        Amount::zero(), // should be one token
        None,
    );
    assert_eq!(
        b.apply_settlement(&entry).unwrap_err(),
        Error::SettlementHashMismatch
    );
}

// ---- types ----

#[test]
fn action_target_pairing() {
    let msg = Target::Message(MessageId::from_byte(1));
    let user = Target::User(UserId::from_byte(2));
    assert!(Action::RemoveMessage.is_valid_for(msg));
    assert!(!Action::RemoveMessage.is_valid_for(user));
    assert!(Action::Restrict {
        duration: DurationSecs::from_secs(60)
    }
    .is_valid_for(user));
    assert!(!Action::Restrict {
        duration: DurationSecs::permanent()
    }
    .is_valid_for(msg));
}

#[test]
fn timestamp_saturating_add() {
    let t = Timestamp::from_millis(u64::MAX - 5);
    assert_eq!(t.saturating_add_millis(10).millis(), u64::MAX);
}

// ---- room ----

fn uid(n: u8) -> UserId {
    UserId::from_byte(n)
}

fn three_founder_room() -> Room {
    Room::genesis(Genesis::new(vec![uid(1), uid(2), uid(3)], RoomParams::defaults()).unwrap())
        .unwrap()
}

fn open_remove_on_nine(room: &mut Room, proposer: UserId, dir: Direction, now: Timestamp) -> ProposalId {
    let opening = Opening::new(dir, Salt::from_byte(proposer.0[0]));
    let commit = opening.paid_commitment(Amount::token());
    match room
        .apply(
            Command::OpenProposal {
                proposer,
                target: Target::Message(MessageId::from_byte(9)),
                action: Action::RemoveMessage,
                commit,
            },
            now,
        )
        .unwrap()
    {
        Outcome::ProposalOpened { id } => id,
        other => panic!("unexpected {other:?}"),
    }
}

#[test]
fn zero_balance_cannot_open() {
    let mut r = three_founder_room();
    let opening = Opening::new(Direction::Yes, Salt::from_byte(1));
    let err = r
        .apply(
            Command::OpenProposal {
                proposer: uid(9),
                target: Target::Message(MessageId::from_byte(1)),
                action: Action::RemoveMessage,
                commit: opening.paid_commitment(Amount::token()),
            },
            Timestamp::from_millis(0),
        )
        .unwrap_err();
    assert_eq!(err, Error::ZeroBalanceCannotOpen);
}

#[test]
fn one_proposal_per_proposer() {
    let mut r = three_founder_room();
    let now = Timestamp::from_millis(0);
    open_remove_on_nine(&mut r, uid(1), Direction::Yes, now);
    let opening = Opening::new(Direction::Yes, Salt::from_byte(2));
    let err = r
        .apply(
            Command::OpenProposal {
                proposer: uid(1),
                target: Target::Message(MessageId::from_byte(8)),
                action: Action::RemoveMessage,
                commit: opening.paid_commitment(Amount::token()),
            },
            now,
        )
        .unwrap_err();
    assert_eq!(err, Error::ProposerHasOpenProposal);
}

#[test]
fn duplicate_target_action_rejected() {
    let mut r = three_founder_room();
    let now = Timestamp::from_millis(0);
    open_remove_on_nine(&mut r, uid(1), Direction::Yes, now);
    let opening = Opening::new(Direction::No, Salt::from_byte(2));
    let err = r
        .apply(
            Command::OpenProposal {
                proposer: uid(2),
                target: Target::Message(MessageId::from_byte(9)),
                action: Action::RemoveMessage,
                commit: opening.paid_commitment(Amount::token()),
            },
            now,
        )
        .unwrap_err();
    assert_eq!(err, Error::DuplicateTargetAction);
}

#[test]
fn different_durations_on_same_user_ok() {
    let mut r = three_founder_room();
    let now = Timestamp::from_millis(0);
    let o1 = Opening::new(Direction::Yes, Salt::from_byte(1));
    r.apply(
        Command::OpenProposal {
            proposer: uid(1),
            target: Target::User(uid(9)),
            action: Action::Restrict {
                duration: DurationSecs::from_secs(60),
            },
            commit: o1.paid_commitment(Amount::token()),
        },
        now,
    )
    .unwrap();
    let o2 = Opening::new(Direction::Yes, Salt::from_byte(2));
    r.apply(
        Command::OpenProposal {
            proposer: uid(2),
            target: Target::User(uid(9)),
            action: Action::Restrict {
                duration: DurationSecs::from_secs(600),
            },
            commit: o2.paid_commitment(Amount::token()),
        },
        now,
    )
    .unwrap();
    assert_eq!(r.open_proposals().len(), 2);
}

#[test]
fn available_subtracts_locks() {
    let mut r = three_founder_room();
    open_remove_on_nine(&mut r, uid(1), Direction::Yes, Timestamp::from_millis(0));
    assert_eq!(r.available(&uid(1)), Amount::zero());
    assert_eq!(r.balance(&uid(1)), Amount::token());
}
