//! Token amounts in subunits.
//!
//! One display token is [`TOKEN`] subunits. Genesis grants one token to each
//! founder; the finer unit makes square-root weighting and pro-rata payouts
//! meaningful.

use vstd::prelude::*;

use crate::error::Error;

verus! {

/// Subunits in one display token.
pub const TOKEN: u64 = 1_000_000;

/// Non-negative token quantity, stored as subunits.
#[derive(Clone, Copy, Debug, Default, PartialEq, Eq, Structural, PartialOrd, Ord, Hash)]
pub struct Amount(u64);

impl View for Amount {
    type V = u64;

    closed spec fn view(&self) -> u64 {
        self.0
    }
}

/// The amount holding exactly `n` subunits.
pub closed spec fn amt(n: u64) -> Amount {
    Amount(n)
}

/// Viewing a constructed amount gives back its subunits.
pub broadcast proof fn lemma_amt_view(n: u64)
    ensures
        #[trigger] amt(n)@ == n,
{
}

/// An amount is determined by its subunits.
pub broadcast proof fn lemma_amt_of_view(a: Amount)
    ensures
        #[trigger] amt(a@) == a,
{
}

pub broadcast group group_amount {
    lemma_amt_view,
    lemma_amt_of_view,
}

impl Amount {
    /// Zero subunits.
    pub fn zero() -> (r: Self)
        ensures
            r@ == 0,
    {
        Amount(0)
    }

    /// Exactly one display token.
    pub fn token() -> (r: Self)
        ensures
            r@ == TOKEN,
    {
        Amount(TOKEN)
    }

    /// Construct from raw subunits.
    pub fn from_subunits(n: u64) -> (r: Self)
        ensures
            r@ == n,
    {
        Amount(n)
    }

    /// Construct `n` display tokens, or `None` if the product overflows `u64`.
    pub fn from_tokens(n: u64) -> (r: Option<Self>)
        ensures
            n * TOKEN <= u64::MAX ==> r == Some(amt((n * TOKEN) as u64)),
            n * TOKEN > u64::MAX ==> r is None,
    {
        match n.checked_mul(TOKEN) {
            Some(v) => Some(Amount(v)),
            None => None,
        }
    }

    /// Raw subunit count.
    pub fn subunits(self) -> (r: u64)
        ensures
            r == self@,
    {
        self.0
    }

    /// `true` when the amount is zero.
    pub fn is_zero(self) -> (r: bool)
        ensures
            r == (self@ == 0),
    {
        self.0 == 0
    }

    /// Checked addition.
    pub fn checked_add(self, other: Self) -> (r: Option<Self>)
        ensures
            self@ + other@ <= u64::MAX ==> r == Some(amt((self@ + other@) as u64)),
            self@ + other@ > u64::MAX ==> r is None,
    {
        match self.0.checked_add(other.0) {
            Some(v) => Some(Amount(v)),
            None => None,
        }
    }

    /// Checked subtraction.
    pub fn checked_sub(self, other: Self) -> (r: Option<Self>)
        ensures
            other@ <= self@ ==> r == Some(amt((self@ - other@) as u64)),
            other@ > self@ ==> r is None,
    {
        match self.0.checked_sub(other.0) {
            Some(v) => Some(Amount(v)),
            None => None,
        }
    }

    /// Addition capped at `u64::MAX` subunits.
    pub fn saturating_add(self, other: Self) -> (r: Self)
        ensures
            r@ == sat_add(self@, other@),
    {
        Amount(self.0.saturating_add(other.0))
    }

    /// Subtraction floored at zero.
    pub fn saturating_sub(self, other: Self) -> (r: Self)
        ensures
            r@ == sat_sub(self@, other@),
    {
        Amount(self.0.saturating_sub(other.0))
    }

    /// Addition used on consensus paths: overflow is an error.
    pub(crate) fn checked_add_err(self, other: Self) -> (r: Result<Self, Error>)
        ensures
            r == add_or_overflow(self, other),
    {
        match self.checked_add(other) {
            Some(v) => Ok(v),
            None => Err(Error::Overflow),
        }
    }

    /// Subtraction used on consensus paths: a shortfall is an error.
    pub(crate) fn checked_sub_err(self, other: Self) -> (r: Result<Self, Error>)
        ensures
            r == sub_or_insufficient(self, other),
    {
        match self.checked_sub(other) {
            Some(v) => Ok(v),
            None => Err(Error::InsufficientBalance),
        }
    }
}

/// `a + b`, capped at `u64::MAX`.
pub open spec fn sat_add(a: u64, b: u64) -> u64 {
    if a + b > u64::MAX {
        u64::MAX
    } else {
        (a + b) as u64
    }
}

/// `a - b`, floored at zero.
pub open spec fn sat_sub(a: u64, b: u64) -> u64 {
    if b > a {
        0
    } else {
        (a - b) as u64
    }
}

/// Sum of two amounts, or `Overflow` when it does not fit.
pub open spec fn add_or_overflow(a: Amount, b: Amount) -> Result<Amount, Error> {
    if a@ + b@ > u64::MAX {
        Err(Error::Overflow)
    } else {
        Ok(amt((a@ + b@) as u64))
    }
}

/// Difference of two amounts, or `InsufficientBalance` when `b > a`.
pub open spec fn sub_or_insufficient(a: Amount, b: Amount) -> Result<Amount, Error> {
    if b@ > a@ {
        Err(Error::InsufficientBalance)
    } else {
        Ok(amt((a@ - b@) as u64))
    }
}

} // verus!
