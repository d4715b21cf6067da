//! Fixed-point money and the two timestamps every record carries.
//!
//! Prices, quantities and cash are integers scaled by [`SCALE`], never
//! floats. A backtest sums millions of fills; binary floating point makes
//! that sum depend on the order it happened in, and makes a position fail
//! to close at exactly zero.
//!
//! The other decision that cannot be retrofitted is dual timestamps.
//! Every record has `ts_event` (when it happened at the venue) and
//! `ts_init` (when this system could first have known it). Replay orders by
//! `ts_init`, so a record that arrived late is delivered late, and a
//! strategy cannot act on knowledge it did not have.

use vstd::prelude::*;
use vstd::string::*;

use crate::error::BacktestError;
use crate::text::{
    digit_char, digits_count, lower_text, nat_text, numbers_are_written_in_digits, push_u128, str_same,
    to_lower,
};

verus! {

/// The integer every fixed-point value is stored in.
pub type Raw = i64;

/// Whether [`Raw`] is wider than 64 bits.
pub const WIDE: bool = false;

/// Fixed-point scale: nine decimal places.
///
/// Prediction-market ticks are 1e-4, crypto quantities run to 1e-8, and
/// `i64` at 1e-9 still reaches 9.2e9 units either side of zero.
pub const SCALE: Raw = 1_000_000_000;

/// Half of [`SCALE`]: what a product is shifted by to round it.
const HALF_SCALE: i128 = 500_000_000;

/// Whether a value fits [`Raw`].
pub open spec fn fits(x: int) -> bool {
    i64::MIN <= x <= i64::MAX
}

/// The distance of a value from zero.
pub open spec fn magnitude(x: int) -> int {
    if x < 0 {
        -x
    } else {
        x
    }
}

/// The quotient rounded towards zero, for a positive divisor.
pub open spec fn div_trunc(x: int, d: int) -> int {
    if x >= 0 {
        x / d
    } else {
        -((-x) / d)
    }
}

/// The value scaled down by [`SCALE`], rounded half away from zero.
pub open spec fn scaled_down(product: int) -> int {
    if product >= 0 {
        (product + 500_000_000) / 1_000_000_000
    } else {
        -((-product + 500_000_000) / 1_000_000_000)
    }
}

/// `price * qty` in raw units, rounded half away from zero.
pub open spec fn notional_of(price: int, qty: int) -> int {
    scaled_down(price * qty)
}

/// The quotient rounded towards zero.
pub fn divide_trunc(x: i128, d: i128) -> (q: i128)
    requires
        d > 0,
        x > i128::MIN,
    ensures
        q == div_trunc(x as int, d as int),
        magnitude(q as int) <= magnitude(x as int),
{
    if x >= 0 {
        assert(x as int / d as int <= x) by (nonlinear_arith)
            requires
                x >= 0,
                d > 0,
        ;
        assert(x as int / d as int >= 0) by (nonlinear_arith)
            requires
                x >= 0,
                d > 0,
        ;
        x / d
    } else {
        let y: i128 = -x;
        assert(y as int / d as int <= y) by (nonlinear_arith)
            requires
                y >= 0,
                d > 0,
        ;
        assert(y as int / d as int >= 0) by (nonlinear_arith)
            requires
                y >= 0,
                d > 0,
        ;
        -(y / d)
    }
}

/// The digits of `frac` out of `width` decimal places, up to its last
/// non-zero one. `unit` is the place value of the first of them.
pub open spec fn frac_text(frac: nat, unit: nat) -> Seq<char>
    decreases unit,
{
    if frac == 0 || unit == 0 {
        Seq::empty()
    } else {
        seq![digit_char((frac / unit) % 10)] + frac_text(frac % unit, unit / 10)
    }
}

/// A fixed-point value in decimal, without trailing zeros.
pub open spec fn fixed_text(raw: int) -> Seq<char> {
    let m = magnitude(raw) as nat;
    let sign = if raw < 0 { seq!['-'] } else { Seq::<char>::empty() };
    let whole = sign + nat_text(m / 1_000_000_000);
    if m % 1_000_000_000 == 0 {
        whole
    } else {
        whole + seq!['.'] + frac_text(m % 1_000_000_000, 100_000_000)
    }
}

/// Append a fixed-point value in decimal.
pub fn push_fixed(out: &mut String, raw: i64)
    ensures
        final(out)@ == old(out)@ + fixed_text(raw as int),
{
    let ghost start = out@;
    let m: u128 = if raw < 0 {
        (-(raw as i128)) as u128
    } else {
        raw as u128
    };
    if raw < 0 {
        out.push('-');
    }
    let ghost sign = if raw < 0 { seq!['-'] } else { Seq::<char>::empty() };
    assert(out@ =~= start + sign);
    let whole: u128 = m / 1_000_000_000;
    let mut frac: u128 = m % 1_000_000_000;
    push_u128(out, whole);
    assert(out@ =~= start + (sign + nat_text(whole as nat)));
    if frac != 0 {
        let ghost total = frac;
        out.push('.');
        let ghost point = out@;
        let mut unit: u128 = 100_000_000;
        while frac > 0 && unit > 0
            invariant
                out@ + frac_text(frac as nat, unit as nat) =~= point + frac_text(
                    total as nat,
                    100_000_000,
                ),
                frac < 1_000_000_000,
                unit == 100_000_000 || unit == 10_000_000 || unit == 1_000_000 || unit == 100_000
                    || unit == 10_000 || unit == 1_000 || unit == 100 || unit == 10 || unit == 1
                    || (unit == 0 && frac == 0),
                unit > 0 ==> frac < 10 * unit,
            decreases unit,
        {
            let d: u128 = frac / unit;
            let ghost before = out@;
            assert(d < 10) by (nonlinear_arith)
                requires
                    unit > 0,
                    frac < 10 * unit,
                    d == frac / unit,
            ;
            push_u128(out, d);
            assert(nat_text(d as nat) =~= seq![digit_char(d as nat)]);
            assert(frac_text(frac as nat, unit as nat) == seq![digit_char(d as nat)] + frac_text(
                (frac % unit) as nat,
                (unit / 10) as nat,
            ));
            assert(out@ + frac_text((frac % unit) as nat, (unit / 10) as nat) =~= before + frac_text(
                frac as nat,
                unit as nat,
            ));
            frac = frac % unit;
            unit = unit / 10;
            assert(unit > 0 ==> frac < 10 * unit);
        }
        assert(frac_text(frac as nat, unit as nat) =~= Seq::<char>::empty());
        assert(out@ =~= start + fixed_text(raw as int));
    }
}

/// A price, in fixed point.
#[derive(Clone, Copy, PartialEq, Eq, PartialOrd, Ord, Hash, Debug, Structural)]
pub struct Price(pub Raw);

impl Price {
    pub fn zero() -> (r: Self)
        ensures
            r == Price(0),
    {
        Price(0)
    }

    /// From raw scaled units.
    pub fn from_raw(raw: Raw) -> (r: Self)
        ensures
            r == Price(raw),
    {
        Price(raw)
    }

    /// Raw scaled units.
    pub fn raw(self) -> (r: Raw)
        ensures
            r == self.0,
    {
        self.0
    }

    /// From a whole number of units.
    pub fn from_units(units: Raw) -> (r: Result<Self, BacktestError>)
        ensures
            r == (if fits(units * SCALE) {
                Ok(Price((units * SCALE) as i64))
            } else {
                Err(BacktestError::Overflow { what: "Price::from_units" })
            }),
    {
        match units.checked_mul(SCALE) {
            Some(raw) => Ok(Price(raw)),
            None => Err(BacktestError::Overflow { what: "Price::from_units" }),
        }
    }

    pub fn is_zero(self) -> (r: bool)
        ensures
            r == (self.0 == 0),
    {
        self.0 == 0
    }

    pub fn is_positive(self) -> (r: bool)
        ensures
            r == (self.0 > 0),
    {
        self.0 > 0
    }

    pub fn is_negative(self) -> (r: bool)
        ensures
            r == (self.0 < 0),
    {
        self.0 < 0
    }

    pub fn abs(self) -> (r: Self)
        requires
            self.0 != i64::MIN,
        ensures
            r.0 == magnitude(self.0 as int),
    {
        if self.0 < 0 {
            Price(-self.0)
        } else {
            self
        }
    }

    pub fn checked_add(self, other: Self) -> (r: Result<Self, BacktestError>)
        ensures
            r == (if fits(self.0 + other.0) {
                Ok(Price((self.0 + other.0) as i64))
            } else {
                Err(BacktestError::Overflow { what: "Price::add" })
            }),
    {
        match self.0.checked_add(other.0) {
            Some(raw) => Ok(Price(raw)),
            None => Err(BacktestError::Overflow { what: "Price::add" }),
        }
    }

    pub fn checked_sub(self, other: Self) -> (r: Result<Self, BacktestError>)
        ensures
            r == (if fits(self.0 - other.0) {
                Ok(Price((self.0 - other.0) as i64))
            } else {
                Err(BacktestError::Overflow { what: "Price::sub" })
            }),
    {
        match self.0.checked_sub(other.0) {
            Some(raw) => Ok(Price(raw)),
            None => Err(BacktestError::Overflow { what: "Price::sub" }),
        }
    }

    /// The value in decimal, without trailing zeros.
    pub fn to_text(self) -> (out: String)
        ensures
            out@ == fixed_text(self.0 as int),
    {
        let mut out = String::new();
        push_fixed(&mut out, self.0);
        assert(out@ =~= fixed_text(self.0 as int));
        out
    }
}

impl Default for Price {
    fn default() -> (r: Self)
        ensures
            r == Price(0),
    {
        Price(0)
    }
}

impl core::ops::Neg for Price {
    type Output = Price;

    fn neg(self) -> (r: Price) {
        Price(-self.0)
    }
}

impl vstd::std_specs::ops::NegSpecImpl for Price {
    open spec fn obeys_neg_spec() -> bool {
        true
    }

    open spec fn neg_req(self) -> bool {
        self.0 != i64::MIN
    }

    open spec fn neg_spec(self) -> Price {
        Price((-self.0) as i64)
    }
}

/// A quantity, in fixed point.
#[derive(Clone, Copy, PartialEq, Eq, PartialOrd, Ord, Hash, Debug, Structural)]
pub struct Qty(pub Raw);

impl Qty {
    pub fn zero() -> (r: Self)
        ensures
            r == Qty(0),
    {
        Qty(0)
    }

    /// From raw scaled units.
    pub fn from_raw(raw: Raw) -> (r: Self)
        ensures
            r == Qty(raw),
    {
        Qty(raw)
    }

    /// Raw scaled units.
    pub fn raw(self) -> (r: Raw)
        ensures
            r == self.0,
    {
        self.0
    }

    /// From a whole number of units.
    pub fn from_units(units: Raw) -> (r: Result<Self, BacktestError>)
        ensures
            r == (if fits(units * SCALE) {
                Ok(Qty((units * SCALE) as i64))
            } else {
                Err(BacktestError::Overflow { what: "Qty::from_units" })
            }),
    {
        match units.checked_mul(SCALE) {
            Some(raw) => Ok(Qty(raw)),
            None => Err(BacktestError::Overflow { what: "Qty::from_units" }),
        }
    }

    pub fn is_zero(self) -> (r: bool)
        ensures
            r == (self.0 == 0),
    {
        self.0 == 0
    }

    pub fn is_positive(self) -> (r: bool)
        ensures
            r == (self.0 > 0),
    {
        self.0 > 0
    }

    pub fn is_negative(self) -> (r: bool)
        ensures
            r == (self.0 < 0),
    {
        self.0 < 0
    }

    pub fn abs(self) -> (r: Self)
        requires
            self.0 != i64::MIN,
        ensures
            r.0 == magnitude(self.0 as int),
    {
        if self.0 < 0 {
            Qty(-self.0)
        } else {
            self
        }
    }

    pub fn checked_add(self, other: Self) -> (r: Result<Self, BacktestError>)
        ensures
            r == (if fits(self.0 + other.0) {
                Ok(Qty((self.0 + other.0) as i64))
            } else {
                Err(BacktestError::Overflow { what: "Qty::add" })
            }),
    {
        match self.0.checked_add(other.0) {
            Some(raw) => Ok(Qty(raw)),
            None => Err(BacktestError::Overflow { what: "Qty::add" }),
        }
    }

    pub fn checked_sub(self, other: Self) -> (r: Result<Self, BacktestError>)
        ensures
            r == (if fits(self.0 - other.0) {
                Ok(Qty((self.0 - other.0) as i64))
            } else {
                Err(BacktestError::Overflow { what: "Qty::sub" })
            }),
    {
        match self.0.checked_sub(other.0) {
            Some(raw) => Ok(Qty(raw)),
            None => Err(BacktestError::Overflow { what: "Qty::sub" }),
        }
    }

    /// The value in decimal, without trailing zeros.
    pub fn to_text(self) -> (out: String)
        ensures
            out@ == fixed_text(self.0 as int),
    {
        let mut out = String::new();
        push_fixed(&mut out, self.0);
        assert(out@ =~= fixed_text(self.0 as int));
        out
    }
}

impl Default for Qty {
    fn default() -> (r: Self)
        ensures
            r == Qty(0),
    {
        Qty(0)
    }
}

impl core::ops::Neg for Qty {
    type Output = Qty;

    fn neg(self) -> (r: Qty) {
        Qty(-self.0)
    }
}

impl vstd::std_specs::ops::NegSpecImpl for Qty {
    open spec fn obeys_neg_spec() -> bool {
        true
    }

    open spec fn neg_req(self) -> bool {
        self.0 != i64::MIN
    }

    open spec fn neg_spec(self) -> Qty {
        Qty((-self.0) as i64)
    }
}

/// A cash amount, in fixed point.
#[derive(Clone, Copy, PartialEq, Eq, PartialOrd, Ord, Hash, Debug, Structural)]
pub struct Money(pub Raw);

impl Money {
    pub fn zero() -> (r: Self)
        ensures
            r == Money(0),
    {
        Money(0)
    }

    /// From raw scaled units.
    pub fn from_raw(raw: Raw) -> (r: Self)
        ensures
            r == Money(raw),
    {
        Money(raw)
    }

    /// Raw scaled units.
    pub fn raw(self) -> (r: Raw)
        ensures
            r == self.0,
    {
        self.0
    }

    /// From a whole number of units.
    pub fn from_units(units: Raw) -> (r: Result<Self, BacktestError>)
        ensures
            r == (if fits(units * SCALE) {
                Ok(Money((units * SCALE) as i64))
            } else {
                Err(BacktestError::Overflow { what: "Money::from_units" })
            }),
    {
        match units.checked_mul(SCALE) {
            Some(raw) => Ok(Money(raw)),
            None => Err(BacktestError::Overflow { what: "Money::from_units" }),
        }
    }

    pub fn is_zero(self) -> (r: bool)
        ensures
            r == (self.0 == 0),
    {
        self.0 == 0
    }

    pub fn is_positive(self) -> (r: bool)
        ensures
            r == (self.0 > 0),
    {
        self.0 > 0
    }

    pub fn is_negative(self) -> (r: bool)
        ensures
            r == (self.0 < 0),
    {
        self.0 < 0
    }

    pub fn abs(self) -> (r: Self)
        requires
            self.0 != i64::MIN,
        ensures
            r.0 == magnitude(self.0 as int),
    {
        if self.0 < 0 {
            Money(-self.0)
        } else {
            self
        }
    }

    pub fn checked_add(self, other: Self) -> (r: Result<Self, BacktestError>)
        ensures
            r == (if fits(self.0 + other.0) {
                Ok(Money((self.0 + other.0) as i64))
            } else {
                Err(BacktestError::Overflow { what: "Money::add" })
            }),
    {
        match self.0.checked_add(other.0) {
            Some(raw) => Ok(Money(raw)),
            None => Err(BacktestError::Overflow { what: "Money::add" }),
        }
    }

    pub fn checked_sub(self, other: Self) -> (r: Result<Self, BacktestError>)
        ensures
            r == (if fits(self.0 - other.0) {
                Ok(Money((self.0 - other.0) as i64))
            } else {
                Err(BacktestError::Overflow { what: "Money::sub" })
            }),
    {
        match self.0.checked_sub(other.0) {
            Some(raw) => Ok(Money(raw)),
            None => Err(BacktestError::Overflow { what: "Money::sub" }),
        }
    }

    /// The value in decimal, without trailing zeros.
    pub fn to_text(self) -> (out: String)
        ensures
            out@ == fixed_text(self.0 as int),
    {
        let mut out = String::new();
        push_fixed(&mut out, self.0);
        assert(out@ =~= fixed_text(self.0 as int));
        out
    }
}

impl Default for Money {
    fn default() -> (r: Self)
        ensures
            r == Money(0),
    {
        Money(0)
    }
}

impl core::ops::Neg for Money {
    type Output = Money;

    fn neg(self) -> (r: Money) {
        Money(-self.0)
    }
}

impl vstd::std_specs::ops::NegSpecImpl for Money {
    open spec fn obeys_neg_spec() -> bool {
        true
    }

    open spec fn neg_req(self) -> bool {
        self.0 != i64::MIN
    }

    open spec fn neg_spec(self) -> Money {
        Money((-self.0) as i64)
    }
}

impl Price {
    /// The lower bound a probability price must satisfy.
    pub fn probability_min() -> (r: Self)
        ensures
            r == Price(0),
    {
        Price(0)
    }

    /// The upper bound a probability price must satisfy.
    pub fn probability_max() -> (r: Self)
        ensures
            r == Price(SCALE),
    {
        Price(SCALE)
    }

    /// `1 - self`, the complementary probability.
    ///
    /// A binary prediction market's NO side prices at one minus YES; this
    /// is the operation that relates them.
    pub fn complement(self) -> (r: Result<Self, BacktestError>)
        ensures
            r == (if fits(SCALE - self.0) {
                Ok(Price((SCALE - self.0) as i64))
            } else {
                Err(BacktestError::Overflow { what: "Price::sub" })
            }),
    {
        Price(SCALE).checked_sub(self)
    }
}

/// Narrow a wide intermediate back to [`Raw`], refusing rather than wrapping.
pub fn narrow(value: i128, what: &'static str) -> (r: Result<Raw, BacktestError>)
    ensures
        r == (if fits(value as int) {
            Ok(value as i64)
        } else {
            Err(BacktestError::Overflow { what })
        }),
{
    if value < i64::MIN as i128 || value > i64::MAX as i128 {
        Err(BacktestError::Overflow { what })
    } else {
        Ok(value as i64)
    }
}

/// The product of two raw values fits a wide intermediate.
pub proof fn product_fits_wide(a: i64, b: i64)
    ensures
        magnitude(a * b) <= 0x4000_0000_0000_0000_0000_0000_0000_0000,
{
    assert(-0x4000_0000_0000_0000_0000_0000_0000_0000 <= a * b
        <= 0x4000_0000_0000_0000_0000_0000_0000_0000) by (nonlinear_arith)
        requires
            -0x8000_0000_0000_0000 <= a <= 0x7fff_ffff_ffff_ffff,
            -0x8000_0000_0000_0000 <= b <= 0x7fff_ffff_ffff_ffff,
    ;
}

/// The exact product of two raw values.
pub fn wide_product(a: i64, b: i64) -> (p: i128)
    ensures
        p == a * b,
        magnitude(p as int) <= 0x4000_0000_0000_0000_0000_0000_0000_0000,
{
    proof {
        product_fits_wide(a, b);
    }
    (a as i128) * (b as i128)
}

/// A product of two scaled values, scaled back down, rounded half away from
/// zero.
pub fn scale_down(product: i128) -> (r: i128)
    requires
        magnitude(product as int) <= 0x4000_0000_0000_0000_0000_0000_0000_0000,
    ensures
        r == scaled_down(product as int),
{
    if product >= 0 {
        (product + HALF_SCALE) / (SCALE as i128)
    } else {
        -((-product + HALF_SCALE) / (SCALE as i128))
    }
}

/// `price * qty`, rounded half away from zero.
///
/// Computed through `i128` because the intermediate product of two values
/// scaled by 1e9 overflows `i64` well inside the range either factor can
/// legitimately take.
pub fn notional(price: Price, qty: Qty) -> (r: Result<Money, BacktestError>)
    ensures
        r == (if fits(notional_of(price.0 as int, qty.0 as int)) {
            Ok(Money(notional_of(price.0 as int, qty.0 as int) as i64))
        } else {
            Err(BacktestError::Overflow { what: "notional" })
        }),
{
    let product = wide_product(price.0, qty.0);
    match narrow(scale_down(product), "notional") {
        Ok(raw) => Ok(Money(raw)),
        Err(e) => Err(e),
    }
}

/// Nanoseconds since the Unix epoch.
#[derive(Clone, Copy, PartialEq, Eq, PartialOrd, Ord, Hash, Debug, Structural)]
pub struct UnixNanos(pub i64);

impl UnixNanos {
    /// The earliest instant there is.
    pub fn earliest() -> (r: Self)
        ensures
            r == UnixNanos(i64::MIN),
    {
        UnixNanos(i64::MIN)
    }

    /// The latest instant there is.
    pub fn latest() -> (r: Self)
        ensures
            r == UnixNanos(i64::MAX),
    {
        UnixNanos(i64::MAX)
    }

    pub fn new(nanos: i64) -> (r: Self)
        ensures
            r == UnixNanos(nanos),
    {
        UnixNanos(nanos)
    }

    pub fn get(self) -> (r: i64)
        ensures
            r == self.0,
    {
        self.0
    }

    pub fn checked_add_nanos(self, nanos: i64) -> (r: Result<Self, BacktestError>)
        ensures
            r == (if fits(self.0 + nanos) {
                Ok(UnixNanos((self.0 + nanos) as i64))
            } else {
                Err(BacktestError::Overflow { what: "UnixNanos" })
            }),
    {
        match self.0.checked_add(nanos) {
            Some(at) => Ok(UnixNanos(at)),
            None => Err(BacktestError::Overflow { what: "UnixNanos" }),
        }
    }
}

impl Default for UnixNanos {
    fn default() -> (r: Self)
        ensures
            r == UnixNanos(0),
    {
        UnixNanos(0)
    }
}

/// The value of `x`, or the nearest end of the `i64` range.
pub open spec fn saturated(x: int) -> int {
    if x > i64::MAX {
        i64::MAX as int
    } else if x < i64::MIN {
        i64::MIN as int
    } else {
        x
    }
}

/// `a + b`, stopping at the ends of the range.
pub fn saturating_sum(a: i64, b: i64) -> (r: i64)
    ensures
        r == saturated(a + b),
{
    match a.checked_add(b) {
        Some(sum) => sum,
        None => if b > 0 {
            i64::MAX
        } else {
            i64::MIN
        },
    }
}

/// `a - b`, stopping at the ends of the range.
pub fn saturating_difference(a: i64, b: i64) -> (r: i64)
    ensures
        r == saturated(a - b),
{
    match a.checked_sub(b) {
        Some(difference) => difference,
        None => if b < 0 {
            i64::MAX
        } else {
            i64::MIN
        },
    }
}

/// The two timestamps every replayed record carries.
///
/// `ts_init >= ts_event` always: a system cannot learn of an event before
/// it happens. Data that violates it is rejected at ingestion rather than
/// silently reordered, because the usual cause is a vendor field mapped to
/// the wrong column, and replaying it would quietly grant look-ahead.
#[derive(Clone, Copy, PartialEq, Eq, Debug, Structural)]
pub struct Stamps {
    pub ts_event: UnixNanos,
    pub ts_init: UnixNanos,
}

impl Stamps {
    /// Nothing was known before it happened.
    pub open spec fn wf(self) -> bool {
        self.ts_event.0 <= self.ts_init.0
    }

    pub fn new(ts_event: UnixNanos, ts_init: UnixNanos) -> (r: Result<Self, BacktestError>)
        ensures
            r == (if ts_event.0 <= ts_init.0 {
                Ok((Stamps { ts_event, ts_init }))
            } else {
                Err(
                    BacktestError::CausalityViolation { ts_event: ts_event.0, ts_init: ts_init.0 },
                )
            }),
            r matches Ok(s) ==> s.wf(),
    {
        if ts_init.0 < ts_event.0 {
            return Err(
                BacktestError::CausalityViolation { ts_event: ts_event.0, ts_init: ts_init.0 },
            );
        }
        Ok(Stamps { ts_event, ts_init })
    }

    /// Both stamps equal: the record was known the instant it happened.
    pub fn immediate(ts: UnixNanos) -> (s: Self)
        ensures
            s == (Stamps { ts_event: ts, ts_init: ts }),
            s.wf(),
    {
        Stamps { ts_event: ts, ts_init: ts }
    }

    /// How late the system learned of it.
    pub fn delay_nanos(self) -> (r: i64)
        ensures
            r == saturated(self.ts_init.0 - self.ts_event.0),
    {
        saturating_difference(self.ts_init.0, self.ts_event.0)
    }
}

/// Which side of the book.
#[derive(Clone, Copy, PartialEq, Eq, Debug, Hash, Structural)]
pub enum Side {
    Buy,
    Sell,
}

/// +1 for a buy, -1 for a sell.
pub open spec fn sign_of(side: Side) -> int {
    match side {
        Side::Buy => 1,
        Side::Sell => -1,
    }
}

/// The name a side is written under.
pub open spec fn side_text(side: Side) -> Seq<char> {
    match side {
        Side::Buy => "buy"@,
        Side::Sell => "sell"@,
    }
}

/// The side a vendor's name stands for, whatever case it is written in.
pub open spec fn side_named(text: Seq<char>) -> Option<Side> {
    let name = lower_text(text);
    if name == "buy"@ || name == "bid"@ || name == "b"@ {
        Some(Side::Buy)
    } else if name == "sell"@ || name == "ask"@ || name == "offer"@ || name == "s"@ || name == "a"@ {
        Some(Side::Sell)
    } else {
        None
    }
}

impl Side {
    pub open spec fn spec_opposite(self) -> Side {
        match self {
            Side::Buy => Side::Sell,
            Side::Sell => Side::Buy,
        }
    }

    #[verifier::when_used_as_spec(spec_opposite)]
    pub fn opposite(self) -> (r: Self)
        ensures
            r == self.spec_opposite(),
    {
        match self {
            Side::Buy => Side::Sell,
            Side::Sell => Side::Buy,
        }
    }

    /// +1 for a buy, -1 for a sell: the sign a fill applies to a position.
    pub fn signum(self) -> (r: i64)
        ensures
            r == sign_of(self),
    {
        match self {
            Side::Buy => 1,
            Side::Sell => -1,
        }
    }

    pub fn as_str(self) -> (r: &'static str)
        ensures
            r@ == side_text(self),
    {
        match self {
            Side::Buy => "buy",
            Side::Sell => "sell",
        }
    }

    pub fn parse(text: &str) -> (r: Result<Self, BacktestError>)
        ensures
            match side_named(text@) {
                Some(side) => r == Ok::<Side, BacktestError>(side),
                None => r matches Err(BacktestError::Parse { what, value }) && what@ == "side"@
                    && value@ == lower_text(text@),
            },
    {
        let name = to_lower(text);
        let s = name.as_str();
        if str_same(s, "buy") || str_same(s, "bid") || str_same(s, "b") {
            Ok(Side::Buy)
        } else if str_same(s, "sell") || str_same(s, "ask") || str_same(s, "offer") || str_same(
            s,
            "s",
        ) || str_same(s, "a") {
            Ok(Side::Sell)
        } else {
            Err(BacktestError::Parse { what: "side", value: name })
        }
    }
}

/// Rounding is symmetric: negating a price negates its notional.
pub proof fn notional_is_odd(price: int, qty: int)
    ensures
        notional_of(-price, qty) == -notional_of(price, qty),
        notional_of(price, -qty) == -notional_of(price, qty),
{
    assert((-price) * qty == -(price * qty)) by (nonlinear_arith);
    assert(price * (-qty) == -(price * qty)) by (nonlinear_arith);
}

/// A notional is off by at most half a raw unit.
pub proof fn notional_is_nearest(price: int, qty: int)
    ensures
        magnitude(notional_of(price, qty) * SCALE - price * qty) * 2 <= SCALE,
{
}

/// A product that falls half way between two raw units goes to the one
/// further from zero, and no product changes its sign.
pub proof fn notional_rounds_half_away(price: int, qty: int)
    ensures
        price * qty >= 0 ==> {
            &&& notional_of(price, qty) >= 0
            &&& -SCALE < 2 * (notional_of(price, qty) * SCALE - price * qty) <= SCALE
        },
        price * qty <= 0 ==> {
            &&& notional_of(price, qty) <= 0
            &&& -SCALE <= 2 * (notional_of(price, qty) * SCALE - price * qty) < SCALE
        },
{
}

/// What rounding leaves of a product grows with what the product is multiplied
/// by.
pub proof fn errors_scale(k: int, e: int)
    requires
        -SCALE <= 2 * e <= SCALE,
    ensures
        k >= 0 ==> -(k * SCALE) <= 2 * (k * e) <= k * SCALE,
        k <= 0 ==> k * SCALE <= 2 * (k * e) <= -(k * SCALE),
{
    assert(k >= 0 ==> -(k * 1_000_000_000) <= 2 * (k * e) <= k * 1_000_000_000)
        by (nonlinear_arith)
        requires
            -1_000_000_000 <= 2 * e <= 1_000_000_000,
    ;
    assert(k <= 0 ==> k * 1_000_000_000 <= 2 * (k * e) <= -(k * 1_000_000_000))
        by (nonlinear_arith)
        requires
            -1_000_000_000 <= 2 * e <= 1_000_000_000,
    ;
}

/// A share of an amount that was itself rounded is the share of the exact
/// amount, to within half a raw unit in each of the two products.
pub proof fn a_share_is_near(rate: int, amount: int, exact: int, share: int)
    requires
        -SCALE <= 2 * (amount * SCALE - exact) <= SCALE,
        -SCALE <= 2 * (share * SCALE - rate * amount) <= SCALE,
    ensures
        ({
            let slack = 1_000_000_000 * (if rate < 0 {
                -rate
            } else {
                rate
            }) + 1_000_000_000_000_000_000;
            -slack <= 2 * (share * 1_000_000_000_000_000_000 - rate * exact) <= slack
        }),
{
    let e = amount * 1_000_000_000 - exact;
    errors_scale(rate, e);
    assert(share * 1_000_000_000_000_000_000 - rate * exact == 1_000_000_000 * (share
        * 1_000_000_000 - rate * amount) + rate * e) by (nonlinear_arith)
        requires
            e == amount * 1_000_000_000 - exact,
    ;
}

/// A quotient rounded towards zero is short of the exact one by less than
/// one, and keeps its sign.
pub proof fn a_quotient_is_near(x: int, d: int)
    requires
        d > 0,
    ensures
        x >= 0 ==> 0 <= div_trunc(x, d) * d <= x < div_trunc(x, d) * d + d && div_trunc(x, d) >= 0,
        x <= 0 ==> div_trunc(x, d) * d - d < x <= div_trunc(x, d) * d <= 0 && div_trunc(x, d) <= 0,
{
    let n = if x >= 0 {
        x
    } else {
        -x
    };
    vstd::arithmetic::div_mod::lemma_fundamental_div_mod(n, d);
    let q = n / d;
    assert(d * q == q * d) by (nonlinear_arith);
    assert(q >= 0) by (nonlinear_arith)
        requires
            d > 0,
            n >= 0,
            n == d * q + n % d,
            0 <= n % d < d,
    ;
    assert(q * d >= 0) by (nonlinear_arith)
        requires
            q >= 0,
            d > 0,
    ;
    if x < 0 {
        assert((-q) * d == -(q * d)) by (nonlinear_arith);
    } else if x == 0 {
        assert(q == 0) by (nonlinear_arith)
            requires
                d > 0,
                q >= 0,
                q * d <= 0,
        ;
    }
}

/// A whole number of units at a price is worth exactly that many prices.
pub proof fn notional_of_whole_units(price: int, units: int)
    ensures
        notional_of(price, units * SCALE) == price * units,
{
    assert(price * (units * 1_000_000_000) == (price * units) * 1_000_000_000) by (nonlinear_arith);
}

/// The complement of a complement is the price itself.
pub proof fn complement_is_an_involution(price: int)
    ensures
        SCALE - (SCALE - price) == price,
        0 <= price <= SCALE ==> 0 <= SCALE - price <= SCALE,
{
}

/// A quotient lies between whatever multiples of the divisor the dividend lies
/// between.
pub proof fn a_quotient_lies_between(x: int, d: int, low: int, high: int)
    requires
        d > 0,
        low * d <= x <= high * d,
    ensures
        low <= div_trunc(x, d) <= high,
{
    let q = div_trunc(x, d);
    if x >= 0 {
        vstd::arithmetic::div_mod::lemma_fundamental_div_mod(x, d);
        let r = x % d;
        assert(low <= q <= high) by (nonlinear_arith)
            requires
                d > 0,
                x == d * q + r,
                0 <= r < d,
                low * d <= x <= high * d,
        ;
    } else {
        vstd::arithmetic::div_mod::lemma_fundamental_div_mod(-x, d);
        let r = (-x) % d;
        let n = (-x) / d;
        assert(low <= -n <= high) by (nonlinear_arith)
            requires
                d > 0,
                -x == d * n + r,
                0 <= r < d,
                low * d <= x <= high * d,
        ;
    }
}

/// What does not fit ends at the end of the range it ran past, and what fits
/// is left as it is.
pub proof fn saturating_ends_at_the_range(x: int)
    ensures
        i64::MIN <= saturated(x) <= i64::MAX,
        i64::MIN <= x <= i64::MAX ==> saturated(x) == x,
        x >= i64::MAX ==> saturated(x) == i64::MAX,
        x <= i64::MIN ==> saturated(x) == i64::MIN,
{
}

/// The sides are opposites: each is the other's, and a sale counts against a
/// purchase.
pub proof fn sides_are_opposite(side: Side)
    ensures
        side.opposite() != side,
        side.opposite().opposite() == side,
        sign_of(side.opposite()) == -sign_of(side),
        sign_of(Side::Buy) == 1,
{
}

/// What a line of decimal digits counts, where the first stands for `unit`
/// and each after it for a tenth of the one before.
pub open spec fn fraction_count(s: Seq<char>, unit: nat) -> int
    decreases s.len(),
{
    if s.len() == 0 {
        0
    } else {
        (s[0] as int - '0' as int) * unit + fraction_count(s.drop_first(), unit / 10)
    }
}

/// Whether a number is a one with only zeros behind it.
spec fn is_place(unit: nat) -> bool
    decreases unit,
{
    unit == 1 || unit > 1 && unit % 10 == 0 && is_place(unit / 10)
}

proof fn fractions_count(frac: nat, unit: nat)
    requires
        is_place(unit),
        frac < 10 * unit,
    ensures
        fraction_count(frac_text(frac, unit), unit) == frac,
        frac > 0 ==> frac_text(frac, unit).len() > 0 && frac_text(frac, unit).last() != '0',
        forall|i: int|
            0 <= i < frac_text(frac, unit).len() ==> '0' <= #[trigger] frac_text(frac, unit)[i]
                <= '9',
    decreases unit,
{
    if frac > 0 {
        let text = frac_text(frac, unit);
        let digit = frac / unit;
        assert(0 <= digit < 10 && frac == digit * unit + frac % unit && frac % unit < unit)
            by (nonlinear_arith)
            requires
                0 <= frac < 10 * unit,
                unit > 0,
                digit == frac / unit,
        ;
        let rest = frac_text(frac % unit, unit / 10);
        assert(text.drop_first() =~= rest);
        assert(text[0] as int - '0' as int == digit);
        if unit > 1 {
            fractions_count(frac % unit, unit / 10);
            if rest.len() > 0 {
                assert(text.last() == rest.last());
                assert(forall|i: int| 1 <= i < text.len() ==> #[trigger] text[i] == rest[i - 1]);
            } else {
                assert(frac % unit == 0);
                assert(digit > 0) by (nonlinear_arith)
                    requires
                        frac == digit * unit + 0,
                        frac > 0,
                        unit > 0,
                ;
                assert(text.last() == text[0]);
            }
        } else {
            assert(frac % unit == 0);
            assert(digit * unit == digit) by (nonlinear_arith)
                requires
                    unit == 1,
            ;
            assert(rest =~= Seq::<char>::empty());
            assert(text.last() == text[0]);
        }
    }
}

/// A fixed-point value is written as its whole part in digits and, where it
/// is not whole, a point and at most nine digits more, the last of them no
/// zero. Together they count the value.
pub proof fn fixed_points_are_written_in_full(raw: int, point: int)
    requires
        0 <= point <= fixed_text(raw).len(),
        forall|i: int| 0 <= i < point ==> #[trigger] fixed_text(raw)[i] != '.',
        point < fixed_text(raw).len() ==> fixed_text(raw)[point] == '.',
    ensures
        ({
            let text = fixed_text(raw);
            let start: int = if raw < 0 {
                1
            } else {
                0
            };
            let size = if raw < 0 {
                -raw
            } else {
                raw
            };
            let whole = digits_count(text.subrange(start, point));
            &&& start < point
            &&& text[0] == '-' <==> raw < 0
            &&& point == text.len() ==> size == whole * SCALE
            &&& point < text.len() ==> {
                &&& size == whole * SCALE + fraction_count(
                    text.subrange(point + 1, text.len() as int),
                    100_000_000,
                )
                &&& text.last() != '0'
                &&& size % (SCALE as int) != 0
            }
        }),
{
    let m = magnitude(raw) as nat;
    let sign = if raw < 0 {
        seq!['-']
    } else {
        Seq::<char>::empty()
    };
    let digits = nat_text(m / 1_000_000_000);
    let frac = m % 1_000_000_000;
    let rest = frac_text(frac, 100_000_000);
    let text = fixed_text(raw);
    numbers_are_written_in_digits(m / 1_000_000_000);
    assert(is_place(100_000_000)) by {
        reveal_with_fuel(is_place, 9);
    }
    fractions_count(frac, 100_000_000);
    let stop = (sign + digits).len() as int;
    assert forall|i: int| 0 <= i < stop implies #[trigger] text[i] != '.' by {
        if i >= sign.len() {
            assert(text[i] == digits[i - sign.len()]);
            assert('0' <= digits[i - sign.len()]);
        }
    }
    assert('0' <= digits[0]);
    if frac == 0 {
        assert(point == stop);
    } else {
        assert(text[stop] == '.');
        assert(point == stop);
        assert(text.subrange(point + 1, text.len() as int) =~= rest);
        assert(text.last() == rest.last());
    }
    assert(text.subrange(sign.len() as int, point) =~= digits);
}

} // verus!
