//! Derived restrictions: a later, longer duration overrides and restarts the clock.

use vstd::prelude::*;

use crate::amount::sat_add;
use crate::settlement::SettlementEntry;
use crate::types::{group_time, DurationSecs, Timestamp, UserId};

verus! {

broadcast use group_time;

/// An executed user restriction. Permanent never expires.
#[derive(Clone, Copy, Debug, PartialEq, Eq)]
pub struct Restriction {
    pub user: UserId,
    pub duration: DurationSecs,
    pub start: Timestamp,
}

/// `a * b`, capped at `u64::MAX`.
pub open spec fn sat_mul_u64(a: u64, b: u64) -> u64 {
    if a * b > u64::MAX {
        u64::MAX
    } else {
        (a * b) as u64
    }
}

/// Active at `now`: permanent, or `now` is before `start + duration` (the
/// millisecond arithmetic saturating at `u64::MAX`).
pub open spec fn active_at(r: Restriction, now: u64) -> bool {
    r.duration@ == u64::MAX || now < sat_add(r.start@, sat_mul_u64(r.duration@, 1_000))
}

impl Restriction {
    /// Active at `now` (half-open: expires when `now >= start + D`).
    pub fn is_active(self, now: Timestamp) -> (r: bool)
        ensures
            r == active_at(self, now@),
    {
        if self.duration.is_permanent() {
            return true;
        }
        let dur_ms = match self.duration.secs().checked_mul(1_000) {
            Some(v) => v,
            None => u64::MAX,
        };
        now.millis() < self.start.millis().saturating_add(dur_ms)
    }
}

/// `r` is an executed, still-active restriction on `user` at `now`.
pub open spec fn applies(r: Restriction, user: UserId, now: u64) -> bool {
    r.user@ == user@ && active_at(r, now)
}

/// `a` ranks at or below `b`: shorter, or as long and started no later.
pub open spec fn ranks_le(a: Restriction, b: Restriction) -> bool {
    a.duration@ < b.duration@ || (a.duration@ == b.duration@ && a.start@ <= b.start@)
}

/// Some entry of `log` executed a restriction that applies to `user` at `now`.
pub open spec fn has_applicable(log: Seq<SettlementEntry>, user: UserId, now: u64) -> bool {
    exists|i: int|
        0 <= i < log.len() && (#[trigger] log[i].executed_restriction matches Some(r) && applies(
            r,
            user,
            now,
        ))
}

/// `r` is the effective restriction on `user` at `now` given `log`: it applies,
/// was executed by some entry, and ranks at or above every other applicable one.
pub open spec fn is_effective(log: Seq<SettlementEntry>, user: UserId, now: u64, r: Restriction) -> bool {
    &&& applies(r, user, now)
    &&& exists|i: int| 0 <= i < log.len() && #[trigger] log[i].executed_restriction == Some(r)
    &&& forall|i: int|
        0 <= i < log.len() ==> (#[trigger] log[i].executed_restriction matches Some(c) ==> (applies(
            c,
            user,
            now,
        ) ==> ranks_le(c, r)))
}

/// Effective restriction on `user` at `now`: the longest still-active executed
/// restriction, ties broken by later start.
pub fn effective_restriction(settlements: &[SettlementEntry], user: &UserId, now: Timestamp) -> (r:
    Option<Restriction>)
    ensures
        r is None <==> !has_applicable(settlements@, *user, now@),
        r matches Some(b) ==> is_effective(settlements@, *user, now@, b),
{
    let mut best: Option<Restriction> = None;
    let mut i: usize = 0;
    while i < settlements.len()
        invariant
            0 <= i <= settlements@.len(),
            best is None <==> !has_applicable(settlements@.take(i as int), *user, now@),
            best matches Some(b) ==> is_effective(settlements@.take(i as int), *user, now@, b),
        decreases settlements@.len() - i,
    {
        let ghost pre = settlements@.take(i as int);
        let ghost post = settlements@.take(i + 1);
        assert(forall|j: int| 0 <= j < i ==> #[trigger] post[j] == pre[j]);
        assert(post[i as int] == settlements@[i as int]);
        if let Some(r) = settlements[i].executed_restriction {
            if r.user.same(user) && r.is_active(now) {
                let take = match best {
                    None => true,
                    Some(b) => r.duration.secs() > b.duration.secs() || (r.duration.secs()
                        == b.duration.secs() && r.start.millis() > b.start.millis()),
                };
                if take {
                    best = Some(r);
                }
                proof {
                    assert(post[i as int].executed_restriction == Some(r));
                }
            }
        }
        proof {
            if best is None {
                assert forall|j: int| 0 <= j < post.len() implies !(#[trigger] post[j].executed_restriction matches Some(c)
                    && applies(c, *user, now@)) by {
                    if j < i {
                        assert(post[j] == pre[j]);
                    }
                }
            } else {
                let b = best->Some_0;
                assert(post[i as int] == settlements@[i as int]);
                assert(exists|j: int| 0 <= j < post.len() && #[trigger] post[j].executed_restriction == Some(b)) by {
                    if settlements@[i as int].executed_restriction == Some(b) {
                        assert(post[i as int].executed_restriction == Some(b));
                    } else {
                        let j = choose|j: int| 0 <= j < pre.len() && #[trigger] pre[j].executed_restriction == Some(b);
                        assert(post[j] == pre[j]);
                    }
                }
                assert(has_applicable(post, *user, now@));
            }
        }
        i = i + 1;
    }
    assert(settlements@.take(settlements@.len() as int) =~= settlements@);
    best
}

/// A restriction of duration `d` on `u` at `now` is longer than every
/// restriction on `u` that the log holds active at `now`.
pub open spec fn takes_effect(log: Seq<SettlementEntry>, u: UserId, now: u64, d: DurationSecs) -> bool {
    forall|i: int|
        0 <= i < log.len() ==> (#[trigger] log[i].executed_restriction matches Some(c) ==> (applies(
            c,
            u,
            now,
        ) ==> d@ > c.duration@))
}

/// Appending an entry to the log never lifts a restriction in force and never
/// shortens the effective one; an entry that executes no restriction changes
/// nothing.
pub proof fn law_appending_never_shortens(
    log: Seq<SettlementEntry>,
    e: SettlementEntry,
    user: UserId,
    now: u64,
    before: Restriction,
    after: Restriction,
)
    ensures
        has_applicable(log, user, now) ==> has_applicable(log.push(e), user, now),
        is_effective(log, user, now, before) && is_effective(log.push(e), user, now, after) ==> ranks_le(
            before,
            after,
        ),
        e.executed_restriction is None ==> (has_applicable(log.push(e), user, now) == has_applicable(
            log,
            user,
            now,
        )),
        e.executed_restriction is None ==> (is_effective(log.push(e), user, now, after) == is_effective(
            log,
            user,
            now,
            after,
        )),
{
    let ext = log.push(e);
    assert(forall|i: int| 0 <= i < log.len() ==> #[trigger] ext[i] == log[i]);
    if has_applicable(log, user, now) {
        let i = choose|i: int|
            0 <= i < log.len() && (#[trigger] log[i].executed_restriction matches Some(r) && applies(
                r,
                user,
                now,
            ));
        assert(ext[i] == log[i]);
    }
    if is_effective(log, user, now, before) && is_effective(ext, user, now, after) {
        let i = choose|i: int| 0 <= i < log.len() && #[trigger] log[i].executed_restriction == Some(before);
        assert(ext[i] == log[i]);
        assert(ext[i].executed_restriction == Some(before));
    }
    if e.executed_restriction is None {
        assert(ext[log.len() as int] == e);
        if has_applicable(ext, user, now) {
            let i = choose|i: int|
                0 <= i < ext.len() && (#[trigger] ext[i].executed_restriction matches Some(r) && applies(
                    r,
                    user,
                    now,
                ));
            assert(i < log.len());
            assert(log[i] == ext[i]);
        }
        if is_effective(ext, user, now, after) {
            let i = choose|i: int| 0 <= i < ext.len() && #[trigger] ext[i].executed_restriction == Some(after);
            assert(i < log.len());
            assert(log[i] == ext[i]);
            assert forall|j: int| 0 <= j < log.len() implies (#[trigger] log[j].executed_restriction matches Some(c)
                ==> (applies(c, user, now) ==> ranks_le(c, after))) by {
                assert(ext[j] == log[j]);
            }
        }
        if is_effective(log, user, now, after) {
            let i = choose|i: int| 0 <= i < log.len() && #[trigger] log[i].executed_restriction == Some(after);
            assert(ext[i] == log[i]);
            assert forall|j: int| 0 <= j < ext.len() implies (#[trigger] ext[j].executed_restriction matches Some(c)
                ==> (applies(c, user, now) ==> ranks_le(c, after))) by {
                if j < log.len() {
                    assert(ext[j] == log[j]);
                }
            }
        }
    }
}

/// A restriction that is longer than every one active at its start becomes the
/// effective restriction from that moment, whatever ran before it.
pub proof fn law_longer_restriction_takes_over(
    log: Seq<SettlementEntry>,
    e: SettlementEntry,
    new: Restriction,
    other: Restriction,
)
    requires
        e.executed_restriction == Some(new),
        takes_effect(log, new.user, new.start@, new.duration),
        active_at(new, new.start@),
    ensures
        has_applicable(log.push(e), new.user, new.start@),
        is_effective(log.push(e), new.user, new.start@, other) ==> other.duration == new.duration
            && other.start == new.start,
{
    let ext = log.push(e);
    let t = new.start@;
    assert(ext[log.len() as int] == e);
    assert(ext[log.len() as int].executed_restriction matches Some(r) && applies(r, new.user, t));
    if is_effective(ext, new.user, t, other) {
        assert(ranks_le(new, other));
        let i = choose|i: int| 0 <= i < ext.len() && #[trigger] ext[i].executed_restriction == Some(other);
        if i < log.len() {
            assert(ext[i] == log[i]);
            assert(log[i].executed_restriction == Some(other));
            assert(new.duration@ > other.duration@);
            assert(false);
        }
    }
}

/// Whether a newly passing restriction of `duration` should become effective
/// given the currently active one (if any).
pub open spec fn supersedes_spec(current: Option<Restriction>, duration: DurationSecs) -> bool {
    match current {
        None => true,
        Some(c) => duration@ > c.duration@,
    }
}

/// Whether a newly passing restriction of `duration` should become effective
/// given the currently active one (if any).
pub fn supersedes(current: Option<Restriction>, duration: DurationSecs) -> (r: bool)
    ensures
        r == supersedes_spec(current, duration),
{
    match current {
        None => true,
        Some(c) => duration.secs() > c.duration.secs(),
    }
}

} // verus!
