//! Integer square-root weights and the yes-vs-no plus floor decision.

use vstd::prelude::*;

use crate::amount::Amount;
use crate::params::SeverityThreshold;
use crate::settlement::OutcomeKind;

verus! {

/// `r` is the integer square root of `n`.
pub open spec fn is_isqrt(n: int, r: int) -> bool {
    0 <= r && r * r <= n < (r + 1) * (r + 1)
}

/// Integer square root, defined by counting up from zero.
pub open spec fn isqrt_spec(n: nat) -> nat
    decreases n,
{
    if n == 0 {
        0
    } else {
        let r = isqrt_spec((n - 1) as nat);
        if (r + 1) * (r + 1) <= n {
            r + 1
        } else {
            r
        }
    }
}

/// `isqrt_spec(n)` is the integer square root of `n`.
pub proof fn lemma_isqrt_spec(n: nat)
    ensures
        is_isqrt(n as int, isqrt_spec(n) as int),
    decreases n,
{
    if n > 0 {
        lemma_isqrt_spec((n - 1) as nat);
        let r = isqrt_spec((n - 1) as nat) as int;
        assert((r + 1) * (r + 1) <= n ==> (r + 2) * (r + 2) > n) by (nonlinear_arith)
            requires
                r * r <= n - 1,
                n - 1 < (r + 1) * (r + 1),
                r >= 0,
        ;
    }
}

/// The integer square root is unique.
pub proof fn lemma_isqrt_unique(n: int, a: int, b: int)
    requires
        is_isqrt(n, a),
        is_isqrt(n, b),
    ensures
        a == b,
{
    if a < b {
        assert((a + 1) * (a + 1) <= b * b) by (nonlinear_arith)
            requires
                0 <= a < b,
        ;
    }
    if b < a {
        assert((b + 1) * (b + 1) <= a * a) by (nonlinear_arith)
            requires
                0 <= b < a,
        ;
    }
}

/// Integer square root of a `u64`.
pub fn isqrt(n: u64) -> (r: u64)
    ensures
        r == isqrt_spec(n as nat),
        is_isqrt(n as int, r as int),
{
    let mut lo: u64 = 0;
    let mut hi: u64 = 0x1_0000_0000;
    assert(n < hi * hi) by (nonlinear_arith)
        requires
            hi == 0x1_0000_0000,
            n <= u64::MAX,
    ;
    while hi - lo > 1
        invariant
            lo < hi <= 0x1_0000_0000,
            lo * lo <= n,
            n < hi * hi,
        decreases hi - lo,
    {
        let mid: u64 = lo + (hi - lo) / 2;
        assert(mid * mid < 0x1_0000_0000_0000_0000) by (nonlinear_arith)
            requires
                mid < 0x1_0000_0000,
        ;
        let sq: u128 = (mid as u128) * (mid as u128);
        if sq <= n as u128 {
            lo = mid;
        } else {
            hi = mid;
        }
    }
    proof {
        lemma_isqrt_spec(n as nat);
        lemma_isqrt_unique(n as int, lo as int, isqrt_spec(n as nat) as int);
    }
    lo
}

/// `a * b`, capped at `u128::MAX`.
pub open spec fn sat_mul_u128(a: u128, b: u128) -> u128 {
    if a * b > u128::MAX {
        u128::MAX
    } else {
        (a * b) as u128
    }
}

fn saturating_mul_u128(a: u128, b: u128) -> (r: u128)
    ensures
        r == sat_mul_u128(a, b),
{
    match a.checked_mul(b) {
        Some(v) => v,
        None => u128::MAX,
    }
}

/// Threshold weight of a stake of `n` subunits: its integer square root.
pub open spec fn weight_spec(n: u64) -> u128 {
    isqrt_spec(n as nat) as u128
}

/// Floor in weight space: `isqrt(supply) * floor_bps / 10_000`, the product capped.
pub open spec fn floor_weight_spec(supply: u64, floor_bps: u64) -> u128 {
    (sat_mul_u128(weight_spec(supply), floor_bps as u128) / 10_000) as u128
}

/// Yes executes iff the ratio has a non-zero denominator, `W_yes * den >= W_no * num`
/// (both products capped at `u128::MAX`), and `W_yes` clears the floor.
pub open spec fn decide_spec(yes: u128, no: u128, supply: u64, t: SeverityThreshold) -> OutcomeKind {
    let den = t.ratio.denominator as u128;
    let num = t.ratio.numerator as u128;
    if den != 0 && sat_mul_u128(yes, den) >= sat_mul_u128(no, num) && yes >= floor_weight_spec(
        supply,
        t.floor_bps,
    ) {
        OutcomeKind::YesExecuted
    } else {
        OutcomeKind::NoDefault
    }
}

/// A stake's threshold weight is the integer square root of its subunits,
/// and the floor is that root of the supply times the basis points over
/// 10 000 (the product never reaches the cap).
pub proof fn law_weight_is_isqrt(n: u64, supply: u64, floor_bps: u64)
    ensures
        is_isqrt(n as int, weight_spec(n) as int),
        weight_spec(n) * weight_spec(n) <= n < (weight_spec(n) + 1) * (weight_spec(n) + 1),
        floor_weight_spec(supply, floor_bps) == (weight_spec(supply) * floor_bps) / 10_000,
{
    lemma_isqrt_spec(n as nat);
    lemma_isqrt_spec(supply as nat);
    let r = isqrt_spec(supply as nat) as int;
    assert(r < 0x1_0000_0000) by (nonlinear_arith)
        requires
            r >= 0,
            r * r <= supply,
            supply <= u64::MAX,
    ;
    assert(r * floor_bps <= u128::MAX) by (nonlinear_arith)
        requires
            0 <= r < 0x1_0000_0000,
            0 <= floor_bps <= u64::MAX,
    ;
    let q = isqrt_spec(n as nat) as int;
    assert(q < 0x1_0000_0000) by (nonlinear_arith)
        requires
            q >= 0,
            q * q <= n,
            n <= u64::MAX,
    ;
    assert(weight_spec(n) as int == isqrt_spec(n as nat));
    assert(weight_spec(supply) as int == r);
}

/// Effective threshold weight of a full stake: `isqrt(subunits)`.
pub fn weight(amount: Amount) -> (r: u128)
    ensures
        r == weight_spec(amount@),
{
    isqrt(amount.subunits()) as u128
}

/// Floor in weight space: `isqrt(supply) * floor_bps / 10_000`.
pub fn floor_weight(supply: Amount, floor_bps: u64) -> (r: u128)
    ensures
        r == floor_weight_spec(supply@, floor_bps),
{
    saturating_mul_u128(weight(supply), floor_bps as u128) / 10_000
}

/// Execute iff `W_yes >= ratio * W_no` and `W_yes` clears the supply-relative floor.
pub fn decide(yes_weight: u128, no_weight: u128, supply: Amount, threshold: SeverityThreshold) -> (r:
    OutcomeKind)
    ensures
        r == decide_spec(yes_weight, no_weight, supply@, threshold),
{
    let den = threshold.ratio.denominator as u128;
    let num = threshold.ratio.numerator as u128;
    // A zero denominator would make every comparison meaningless; treat it as no-win.
    let yes_clears_ratio = den != 0 && saturating_mul_u128(yes_weight, den) >= saturating_mul_u128(
        no_weight,
        num,
    );
    let yes_clears_floor = yes_weight >= floor_weight(supply, threshold.floor_bps);
    if yes_clears_ratio && yes_clears_floor {
        OutcomeKind::YesExecuted
    } else {
        OutcomeKind::NoDefault
    }
}

proof fn lemma_sat_mul_monotone(a: u128, b: u128, c: u128)
    requires
        a <= b,
    ensures
        sat_mul_u128(a, c) <= sat_mul_u128(b, c),
{
    assert(a * c <= b * c) by (nonlinear_arith)
        requires
            a <= b,
            c >= 0,
    ;
}

/// More yes weight, or less no weight, never turns an executed action into a
/// default No: the decision is monotone in both tallies.
pub proof fn law_decide_monotone(
    yes1: u128,
    no1: u128,
    yes2: u128,
    no2: u128,
    supply: u64,
    t: SeverityThreshold,
)
    requires
        yes1 <= yes2,
        no2 <= no1,
        decide_spec(yes1, no1, supply, t) == OutcomeKind::YesExecuted,
    ensures
        decide_spec(yes2, no2, supply, t) == OutcomeKind::YesExecuted,
{
    let den = t.ratio.denominator as u128;
    let num = t.ratio.numerator as u128;
    lemma_sat_mul_monotone(yes1, yes2, den);
    lemma_sat_mul_monotone(no2, no1, num);
}

/// With equal non-zero weights on both sides and a margin above one, No wins.
pub proof fn law_tie_defaults_to_no(w: u128, supply: u64, t: SeverityThreshold)
    requires
        0 < w,
        w <= u64::MAX,
        t.ratio.numerator > t.ratio.denominator,
    ensures
        decide_spec(w, w, supply, t) == OutcomeKind::NoDefault,
{
    let den = t.ratio.denominator as u128;
    let num = t.ratio.numerator as u128;
    assert(w * den < w * num && w * num <= u128::MAX) by (nonlinear_arith)
        requires
            0 < w <= u64::MAX,
            den < num,
            num <= u64::MAX,
    ;
}

} // verus!
