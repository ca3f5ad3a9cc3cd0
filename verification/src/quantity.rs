//! The three scalar quantities of the auction: simulated time, price per
//! unit time, and accumulated spend. They form a closed algebra:
//! `Second * Currency = Token`, `Token / Second = Currency`,
//! `Token / Currency = Second`, with same-type addition and subtraction and
//! the remainder operators mirroring the divisions. All arithmetic is on
//! `u64`; overflow and underflow are excluded by precondition, so a verified
//! caller can never produce a silently wrapped charge.

use vstd::prelude::*;

verus! {

/// Seconds in one simulated day.
pub const SECONDS_PER_DAY: u64 = 86_400;

/// A span of simulated time.
#[derive(Clone, Copy, Debug, PartialEq, Eq, Structural, PartialOrd, Ord)]
pub struct Second(pub u64);

/// A price per unit of simulated time.
#[derive(Clone, Copy, Debug, PartialEq, Eq, Structural, PartialOrd, Ord)]
pub struct Currency(pub u64);

/// An accumulated quantity of spend or budget.
#[derive(Clone, Copy, Debug, PartialEq, Eq, Structural, PartialOrd, Ord)]
pub struct Token(pub u64);

impl From<u64> for Second {
    fn from(v: u64) -> (r: Second) {
        Second(v)
    }
}

impl vstd::std_specs::convert::FromSpecImpl<u64> for Second {
    open spec fn obeys_from_spec() -> bool {
        true
    }

    open spec fn from_spec(v: u64) -> Second {
        Second(v)
    }
}

impl From<u64> for Currency {
    fn from(v: u64) -> (r: Currency) {
        Currency(v)
    }
}

impl vstd::std_specs::convert::FromSpecImpl<u64> for Currency {
    open spec fn obeys_from_spec() -> bool {
        true
    }

    open spec fn from_spec(v: u64) -> Currency {
        Currency(v)
    }
}

impl From<u64> for Token {
    fn from(v: u64) -> (r: Token) {
        Token(v)
    }
}

impl vstd::std_specs::convert::FromSpecImpl<u64> for Token {
    open spec fn obeys_from_spec() -> bool {
        true
    }

    open spec fn from_spec(v: u64) -> Token {
        Token(v)
    }
}

impl Second {
    pub fn add(self, other: Second) -> (r: Second)
        requires
            self.0 + other.0 <= u64::MAX,
        ensures
            r.0 == self.0 + other.0,
    {
        Second(self.0 + other.0)
    }

    pub fn sub(self, other: Second) -> (r: Second)
        requires
            other.0 <= self.0,
        ensures
            r.0 == self.0 - other.0,
    {
        Second(self.0 - other.0)
    }

    /// `Second * Currency = Token`: time held times price gives spend.
    pub fn mul_currency(self, rate: Currency) -> (r: Token)
        requires
            self.0 * rate.0 <= u64::MAX,
        ensures
            r.0 == self.0 * rate.0,
    {
        Token(self.0 * rate.0)
    }

    pub fn mul(self, k: u64) -> (r: Second)
        requires
            self.0 * k <= u64::MAX,
        ensures
            r.0 == self.0 * k,
    {
        Second(self.0 * k)
    }

    pub fn div(self, k: u64) -> (r: Second)
        requires
            k > 0,
        ensures
            r.0 == self.0 as int / k as int,
    {
        Second(self.0 / k)
    }

    pub fn rem(self, k: u64) -> (r: Second)
        requires
            k > 0,
        ensures
            r.0 == self.0 as int % k as int,
    {
        Second(self.0 % k)
    }
}

impl Currency {
    pub fn add(self, other: Currency) -> (r: Currency)
        requires
            self.0 + other.0 <= u64::MAX,
        ensures
            r.0 == self.0 + other.0,
    {
        Currency(self.0 + other.0)
    }

    pub fn sub(self, other: Currency) -> (r: Currency)
        requires
            other.0 <= self.0,
        ensures
            r.0 == self.0 - other.0,
    {
        Currency(self.0 - other.0)
    }

    /// `Currency * Second = Token`: price times time held gives spend.
    pub fn mul_second(self, time: Second) -> (r: Token)
        requires
            self.0 * time.0 <= u64::MAX,
        ensures
            r.0 == self.0 * time.0,
    {
        Token(self.0 * time.0)
    }

    pub fn mul(self, k: u64) -> (r: Currency)
        requires
            self.0 * k <= u64::MAX,
        ensures
            r.0 == self.0 * k,
    {
        Currency(self.0 * k)
    }

    pub fn div(self, k: u64) -> (r: Currency)
        requires
            k > 0,
        ensures
            r.0 == self.0 as int / k as int,
    {
        Currency(self.0 / k)
    }

    pub fn rem(self, k: u64) -> (r: Currency)
        requires
            k > 0,
        ensures
            r.0 == self.0 as int % k as int,
    {
        Currency(self.0 % k)
    }
}

impl Token {
    pub fn add(self, other: Token) -> (r: Token)
        requires
            self.0 + other.0 <= u64::MAX,
        ensures
            r.0 == self.0 + other.0,
    {
        Token(self.0 + other.0)
    }

    pub fn sub(self, other: Token) -> (r: Token)
        requires
            other.0 <= self.0,
        ensures
            r.0 == self.0 - other.0,
    {
        Token(self.0 - other.0)
    }

    /// `Token / Second = Currency`: spend over a span gives a rate,
    /// rounded down.
    pub fn div_second(self, time: Second) -> (r: Currency)
        requires
            time.0 > 0,
        ensures
            r.0 == self.0 as int / time.0 as int,
    {
        Currency(self.0 / time.0)
    }

    /// The remainder matching `div_second`:
    /// `a == (a / b) * b + (a % b)` component-wise.
    pub fn rem_second(self, time: Second) -> (r: Currency)
        requires
            time.0 > 0,
        ensures
            r.0 == self.0 as int % time.0 as int,
    {
        Currency(self.0 % time.0)
    }

    /// `Token / Currency = Second`: a budget over a rate gives how long the
    /// charge can run, rounded down.
    pub fn div_currency(self, rate: Currency) -> (r: Second)
        requires
            rate.0 > 0,
        ensures
            r.0 == self.0 as int / rate.0 as int,
    {
        Second(self.0 / rate.0)
    }

    /// The remainder matching `div_currency`.
    pub fn rem_currency(self, rate: Currency) -> (r: Second)
        requires
            rate.0 > 0,
        ensures
            r.0 == self.0 as int % rate.0 as int,
    {
        Second(self.0 % rate.0)
    }

    pub fn mul(self, k: u64) -> (r: Token)
        requires
            self.0 * k <= u64::MAX,
        ensures
            r.0 == self.0 * k,
    {
        Token(self.0 * k)
    }

    pub fn div(self, k: u64) -> (r: Token)
        requires
            k > 0,
        ensures
            r.0 == self.0 as int / k as int,
    {
        Token(self.0 / k)
    }

    pub fn rem(self, k: u64) -> (r: Token)
        requires
            k > 0,
        ensures
            r.0 == self.0 as int % k as int,
    {
        Token(self.0 % k)
    }
}

/// The division laws of the algebra: each division operator and its
/// remainder satisfy `a == (a / b) * b + (a % b)` with
/// `0 <= (a % b) < b`, so no operator loses more than the floor of the
/// division, and the floor is exact.
pub proof fn lemma_division_identity(a: u64, b: u64)
    requires
        b > 0,
    ensures
        (a as int / b as int) * (b as int) + (a as int % b as int) == a as int,
        0 <= (a as int % b as int) < b as int,
{
    vstd::arithmetic::div_mod::lemma_fundamental_div_mod(a as int, b as int);
    vstd::arithmetic::mul::lemma_mul_is_commutative(a as int / b as int, b as int);
    vstd::arithmetic::div_mod::lemma_mod_bound(a as int, b as int);
}

} // verus!
