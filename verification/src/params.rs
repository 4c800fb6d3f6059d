//! Room parameters, frozen at genesis, and the shipped defaults.

use vstd::prelude::*;

use crate::types::{Action, DurationSecs};

verus! {

/// Milliseconds in one second / minute; seconds in one hour / day.
pub const MS_PER_SEC: u64 = 1_000;
pub const MS_PER_MIN: u64 = 60 * MS_PER_SEC;
pub const SECS_PER_HOUR: u64 = 3_600;
pub const SECS_PER_DAY: u64 = 24 * SECS_PER_HOUR;

/// Default windows (chat-scale, still long enough for a mobile two-step reveal).
pub const DEFAULT_BETTING_WINDOW_MS: u64 = 10 * MS_PER_MIN;
pub const DEFAULT_COMMIT_TO_REVEAL_WINDOW_MS: u64 = 3 * MS_PER_MIN;
pub const DEFAULT_OPENING_WINDOW_MS: u64 = MS_PER_MIN;

/// Default duration-bucket edges (restriction durations are in seconds).
pub const DEFAULT_SHORT_MAX_SECS: u64 = SECS_PER_HOUR;
pub const DEFAULT_MEDIUM_MAX_SECS: u64 = SECS_PER_DAY;
pub const DEFAULT_LONG_MAX_SECS: u64 = 7 * SECS_PER_DAY;

/// Rational yes/no margin: execute only if `W_yes * den >= W_no * num`.
#[derive(Clone, Copy, Debug, PartialEq, Eq, Structural, Hash)]
pub struct Ratio {
    /// Numerator (e.g. 133 for 1.33x).
    pub numerator: u64,
    /// Denominator (e.g. 100 for 1.33x).
    pub denominator: u64,
}

impl Ratio {
    /// `numerator / denominator`. A zero denominator makes every comparison fail.
    pub fn new(numerator: u64, denominator: u64) -> (r: Self)
        ensures
            r == (Ratio { numerator, denominator }),
    {
        Ratio { numerator, denominator }
    }
}

/// Threshold for one severity class.
#[derive(Clone, Copy, Debug, PartialEq, Eq, Structural, Hash)]
pub struct SeverityThreshold {
    /// Required `W_yes / W_no` margin.
    pub ratio: Ratio,
    /// Floor as basis points of `isqrt(supply)`. 500 = 5%.
    ///
    /// `W_yes` is in weight space (`isqrt` of subunits), so the floor is
    /// `isqrt(supply) * floor_bps / 10_000`, not a raw-stake percentage.
    pub floor_bps: u64,
}

/// Severity class used to pick a threshold.
#[derive(Clone, Copy, Debug, PartialEq, Eq, Structural, Hash)]
pub enum SeverityClass {
    MessageRemove,
    ShortRestrict,
    MediumRestrict,
    LongRestrict,
    PermanentRestrict,
}

/// Frozen at room creation. The chat creator may override defaults once.
#[derive(Clone, Copy, Debug, PartialEq, Eq, Structural)]
pub struct RoomParams {
    pub remove_message: SeverityThreshold,
    pub short_restrict: SeverityThreshold,
    pub medium_restrict: SeverityThreshold,
    pub long_restrict: SeverityThreshold,
    pub permanent_restrict: SeverityThreshold,
    /// Inclusive max duration (seconds) classified as short.
    pub short_max: DurationSecs,
    /// Inclusive max duration classified as medium.
    pub medium_max: DurationSecs,
    /// Inclusive max duration classified as long. Above this (and not permanent)
    /// is also treated as long; permanent is its own class.
    pub long_max: DurationSecs,
    /// Betting window length, milliseconds.
    pub betting_window_ms: u64,
    /// Commit-to-reveal window length, milliseconds.
    pub commit_to_reveal_window_ms: u64,
    /// Opening window length, milliseconds.
    pub opening_window_ms: u64,
}

/// A threshold with ratio `num / 100` and the given floor.
pub open spec fn percent_threshold(num: u64, floor_bps: u64) -> SeverityThreshold {
    SeverityThreshold { ratio: Ratio { numerator: num, denominator: 100 }, floor_bps }
}

/// Severity class of `action` under `p`.
pub open spec fn class_of(p: RoomParams, action: Action) -> SeverityClass {
    match action {
        Action::RemoveMessage => SeverityClass::MessageRemove,
        Action::Restrict { duration } => {
            if duration@ == u64::MAX {
                SeverityClass::PermanentRestrict
            } else if duration@ <= p.short_max@ {
                SeverityClass::ShortRestrict
            } else if duration@ <= p.medium_max@ {
                SeverityClass::MediumRestrict
            } else {
                SeverityClass::LongRestrict
            }
        },
    }
}

/// Threshold of a severity class under `p`.
pub open spec fn threshold_of_class(p: RoomParams, c: SeverityClass) -> SeverityThreshold {
    match c {
        SeverityClass::MessageRemove => p.remove_message,
        SeverityClass::ShortRestrict => p.short_restrict,
        SeverityClass::MediumRestrict => p.medium_restrict,
        SeverityClass::LongRestrict => p.long_restrict,
        SeverityClass::PermanentRestrict => p.permanent_restrict,
    }
}

/// Threshold that applies to `action` under `p`.
pub open spec fn threshold_spec(p: RoomParams, action: Action) -> SeverityThreshold {
    threshold_of_class(p, class_of(p, action))
}

/// The severity class rank: message removal lowest, permanent highest.
pub open spec fn class_rank(c: SeverityClass) -> int {
    match c {
        SeverityClass::MessageRemove => 0,
        SeverityClass::ShortRestrict => 1,
        SeverityClass::MediumRestrict => 2,
        SeverityClass::LongRestrict => 3,
        SeverityClass::PermanentRestrict => 4,
    }
}

/// Each action is held to the threshold its severity names: message removal
/// to `remove_message`; a restriction to `permanent_restrict` when permanent,
/// else to `short_restrict` up to `short_max`, to `medium_restrict` above that
/// up to `medium_max`, and to `long_restrict` beyond. Classification follows
/// the same edges.
pub proof fn law_threshold_is_the_class_field(p: RoomParams, d: DurationSecs)
    ensures
        class_of(p, Action::RemoveMessage) == SeverityClass::MessageRemove,
        threshold_spec(p, Action::RemoveMessage) == p.remove_message,
        d@ == u64::MAX ==> class_of(p, Action::Restrict { duration: d }) == SeverityClass::PermanentRestrict
            && threshold_spec(p, Action::Restrict { duration: d }) == p.permanent_restrict,
        d@ < u64::MAX && d@ <= p.short_max@ ==> class_of(p, Action::Restrict { duration: d })
            == SeverityClass::ShortRestrict && threshold_spec(p, Action::Restrict { duration: d })
            == p.short_restrict,
        d@ < u64::MAX && p.short_max@ < d@ && d@ <= p.medium_max@ ==> class_of(
            p,
            Action::Restrict { duration: d },
        ) == SeverityClass::MediumRestrict && threshold_spec(p, Action::Restrict { duration: d })
            == p.medium_restrict,
        d@ < u64::MAX && p.short_max@ < d@ && p.medium_max@ < d@ ==> class_of(
            p,
            Action::Restrict { duration: d },
        ) == SeverityClass::LongRestrict && threshold_spec(p, Action::Restrict { duration: d })
            == p.long_restrict,
{
}

/// A longer restriction is never in a milder class, whatever the bucket edges.
pub proof fn law_longer_is_no_milder(p: RoomParams, d1: DurationSecs, d2: DurationSecs)
    requires
        d1@ <= d2@,
        p.short_max@ <= p.medium_max@,
    ensures
        class_rank(class_of(p, Action::Restrict { duration: d1 })) <= class_rank(
            class_of(p, Action::Restrict { duration: d2 }),
        ),
        class_rank(class_of(p, Action::RemoveMessage)) < class_rank(class_of(p, Action::Restrict { duration: d1 })),
{
}

/// Under the shipped defaults, a longer restriction faces at least the ratio
/// and the floor of a shorter one, and a permanent one strictly more than any
/// other.
pub proof fn law_default_bar_rises_with_duration(p: RoomParams, d1: DurationSecs, d2: DurationSecs)
    requires
        d1@ <= d2@,
        p.remove_message == percent_threshold(133, 500),
        p.short_restrict == percent_threshold(133, 500),
        p.medium_restrict == percent_threshold(150, 800),
        p.long_restrict == percent_threshold(175, 1200),
        p.permanent_restrict == percent_threshold(200, 2000),
        p.short_max@ == DEFAULT_SHORT_MAX_SECS,
        p.medium_max@ == DEFAULT_MEDIUM_MAX_SECS,
    ensures
        threshold_spec(p, Action::Restrict { duration: d1 }).ratio.denominator == threshold_spec(
            p,
            Action::Restrict { duration: d2 },
        ).ratio.denominator,
        threshold_spec(p, Action::Restrict { duration: d1 }).ratio.numerator <= threshold_spec(
            p,
            Action::Restrict { duration: d2 },
        ).ratio.numerator,
        threshold_spec(p, Action::Restrict { duration: d1 }).floor_bps <= threshold_spec(
            p,
            Action::Restrict { duration: d2 },
        ).floor_bps,
        d1@ < u64::MAX && d2@ == u64::MAX ==> threshold_spec(p, Action::Restrict { duration: d1 }).floor_bps
            < threshold_spec(p, Action::Restrict { duration: d2 }).floor_bps,
{
}

impl RoomParams {
    /// Shipped defaults.
    pub fn defaults() -> (r: Self)
        ensures
            r.remove_message == percent_threshold(133, 500),
            r.short_restrict == percent_threshold(133, 500),
            r.medium_restrict == percent_threshold(150, 800),
            r.long_restrict == percent_threshold(175, 1200),
            r.permanent_restrict == percent_threshold(200, 2000),
            r.short_max@ == DEFAULT_SHORT_MAX_SECS,
            r.medium_max@ == DEFAULT_MEDIUM_MAX_SECS,
            r.long_max@ == DEFAULT_LONG_MAX_SECS,
            r.betting_window_ms == DEFAULT_BETTING_WINDOW_MS,
            r.commit_to_reveal_window_ms == DEFAULT_COMMIT_TO_REVEAL_WINDOW_MS,
            r.opening_window_ms == DEFAULT_OPENING_WINDOW_MS,
    {
        RoomParams {
            remove_message: SeverityThreshold { ratio: Ratio::new(133, 100), floor_bps: 500 },
            short_restrict: SeverityThreshold { ratio: Ratio::new(133, 100), floor_bps: 500 },
            medium_restrict: SeverityThreshold { ratio: Ratio::new(150, 100), floor_bps: 800 },
            long_restrict: SeverityThreshold { ratio: Ratio::new(175, 100), floor_bps: 1200 },
            permanent_restrict: SeverityThreshold { ratio: Ratio::new(200, 100), floor_bps: 2000 },
            short_max: DurationSecs::from_secs(DEFAULT_SHORT_MAX_SECS),
            medium_max: DurationSecs::from_secs(DEFAULT_MEDIUM_MAX_SECS),
            long_max: DurationSecs::from_secs(DEFAULT_LONG_MAX_SECS),
            betting_window_ms: DEFAULT_BETTING_WINDOW_MS,
            commit_to_reveal_window_ms: DEFAULT_COMMIT_TO_REVEAL_WINDOW_MS,
            opening_window_ms: DEFAULT_OPENING_WINDOW_MS,
        }
    }

    /// Classify an action into a severity bucket.
    pub fn classify(&self, action: Action) -> (r: SeverityClass)
        ensures
            r == class_of(*self, action),
    {
        match action {
            Action::RemoveMessage => SeverityClass::MessageRemove,
            Action::Restrict { duration } => {
                if duration.is_permanent() {
                    SeverityClass::PermanentRestrict
                } else if duration.secs() <= self.short_max.secs() {
                    SeverityClass::ShortRestrict
                } else if duration.secs() <= self.medium_max.secs() {
                    SeverityClass::MediumRestrict
                } else {
                    SeverityClass::LongRestrict
                }
            },
        }
    }

    /// Threshold used for `action`.
    pub fn threshold_for(&self, action: Action) -> (r: SeverityThreshold)
        ensures
            r == threshold_spec(*self, action),
    {
        match self.classify(action) {
            SeverityClass::MessageRemove => self.remove_message,
            SeverityClass::ShortRestrict => self.short_restrict,
            SeverityClass::MediumRestrict => self.medium_restrict,
            SeverityClass::LongRestrict => self.long_restrict,
            SeverityClass::PermanentRestrict => self.permanent_restrict,
        }
    }
}

} // verus!
