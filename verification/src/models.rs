//! The pluggable models a venue is made of.
//!
//! A few small traits carry every behavioural variation a venue can have:
//! new behaviour is a new implementation of one of them, and the venue
//! config stays a list of models.

use std::collections::VecDeque;
use vstd::prelude::*;
use vstd::string::*;

use crate::book::{snapshot_levels, BookStatus, OrderBook};
use crate::error::{says, BacktestError};
use crate::instrument::Instrument;
use crate::order::{Order, OrderId};
use crate::ordered::{entries_map_contains, OrderedKey, SortedMap};
use crate::position::{a_value_is_the_nearest, absolute, value_of};
use crate::types::{
    a_share_is_near, div_trunc, errors_scale, fits, magnitude, notional, notional_of, saturated,
    saturating_difference, saturating_sum, Money, Price, Qty, Side, UnixNanos, SCALE,
};

verus! {

/// What a fee model needs to price a fill.
#[derive(Clone, Copy)]
pub struct FeeContext<'a> {
    pub order_id: OrderId,
    pub instrument: &'a Instrument,
    pub side: Side,
    pub price: Price,
    pub quantity: Qty,
    pub is_taker: bool,
    /// When the fill happened. A schedule that depends on rolling volume
    /// cannot be priced without it, and taking it from a wall clock rather
    /// than the replay would make the fee non-deterministic.
    pub ts: UnixNanos,
}

/// What a venue charges.
pub trait FeeModel {
    /// The model's own state is consistent.
    spec fn ready(&self) -> bool;

    /// What a fill is charged in the model's present state.
    spec fn quote(&self, ctx: FeeContext) -> Result<Money, BacktestError>;

    /// What the model may become once it has priced a fill.
    open spec fn charged(&self, ctx: FeeContext, after: &Self) -> bool {
        true
    }

    /// What the model may become once an order can no longer fill.
    open spec fn released(&self, order_id: OrderId, after: &Self) -> bool {
        true
    }

    fn commission(&mut self, ctx: FeeContext) -> (r: Result<Money, BacktestError>)
        requires
            old(self).ready(),
        ensures
            final(self).ready(),
            r == old(self).quote(ctx),
            old(self).charged(ctx, final(self)),
    ;

    /// Release any per-order state once an order can no longer fill.
    fn order_closed(&mut self, order_id: OrderId)
        requires
            old(self).ready(),
        ensures
            final(self).ready(),
            old(self).released(order_id, final(self)),
    ;
}

/// No fees.
#[derive(Clone, Copy, Debug, PartialEq, Eq, Structural)]
pub struct NoFees;

impl FeeModel for NoFees {
    open spec fn ready(&self) -> bool {
        true
    }

    open spec fn quote(&self, ctx: FeeContext) -> Result<Money, BacktestError> {
        Ok(Money(0))
    }

    open spec fn charged(&self, ctx: FeeContext, after: &Self) -> bool {
        *after == *self
    }

    open spec fn released(&self, order_id: OrderId, after: &Self) -> bool {
        *after == *self
    }

    fn commission(&mut self, ctx: FeeContext) -> (r: Result<Money, BacktestError>) {
        Ok(Money(0))
    }

    fn order_closed(&mut self, order_id: OrderId) {
    }
}

/// A flat proportion of notional, the usual spot/perp shape.
#[derive(Clone, Copy, Debug, PartialEq, Eq, Structural)]
pub struct ProportionalFees {
    pub maker: Price,
    pub taker: Price,
}

impl ProportionalFees {
    pub fn new(maker: Price, taker: Price) -> (r: Self)
        ensures
            r == (ProportionalFees { maker, taker }),
    {
        ProportionalFees { maker, taker }
    }
}

/// A rate applied to a notional.
pub open spec fn rate_on_notional(rate: Price, price: Price, quantity: Qty) -> Result<
    Money,
    BacktestError,
> {
    match value_of(price.0 as int, quantity.0 as int) {
        Ok(gross) => value_of(rate.0 as int, gross.0 as int),
        Err(e) => Err(e),
    }
}

impl FeeModel for ProportionalFees {
    open spec fn ready(&self) -> bool {
        true
    }

    open spec fn quote(&self, ctx: FeeContext) -> Result<Money, BacktestError> {
        rate_on_notional(
            if ctx.is_taker {
                self.taker
            } else {
                self.maker
            },
            ctx.price,
            ctx.quantity,
        )
    }

    open spec fn charged(&self, ctx: FeeContext, after: &Self) -> bool {
        *after == *self
    }

    open spec fn released(&self, order_id: OrderId, after: &Self) -> bool {
        *after == *self
    }

    fn commission(&mut self, ctx: FeeContext) -> (r: Result<Money, BacktestError>) {
        let rate = if ctx.is_taker {
            self.taker
        } else {
            self.maker
        };
        let gross = notional(ctx.price, ctx.quantity)?;
        notional(rate, Qty(gross.0))
    }

    fn order_closed(&mut self, order_id: OrderId) {
    }
}

/// The curved fee prediction-market venues charge.
///
/// `fee = rate * quantity * p * (1 - p)`, which peaks at even odds and
/// vanishes at certainty. A flat `notional * rate` is simply the wrong
/// shape here and overcharges the tails badly, which matters because tail
/// prices are where these markets trade most.
///
/// Maker rebates are modelled as a negative commission, a fraction of the
/// fee-equivalent, matching how the venues actually pay them.
#[derive(Clone, Copy, Debug, PartialEq, Eq, Structural)]
pub struct PredictionMarketFees {
    pub rate: Price,
    /// Fraction of the fee-equivalent paid back to makers, `0` for none.
    pub maker_rebate: Price,
}

/// `rate * quantity * p * (1 - p)`, each product rounded in turn.
pub open spec fn curved(rate: Price, price: Price, quantity: Qty) -> Result<Money, BacktestError> {
    if !fits(SCALE - price.0) {
        Err(BacktestError::Overflow { what: "Price::sub" })
    } else {
        match value_of(price.0 as int, SCALE - price.0) {
            Err(e) => Err(e),
            Ok(odds) => match value_of(odds.0 as int, quantity.0 as int) {
                Err(e) => Err(e),
                Ok(sized) => value_of(rate.0 as int, sized.0 as int),
            },
        }
    }
}

/// `rate * quantity * p * (1 - p)`.
fn curve(rate: Price, price: Price, quantity: Qty) -> (r: Result<Money, BacktestError>)
    ensures
        r == curved(rate, price, quantity),
{
    let complement = price.complement()?;
    let odds = notional(price, Qty(complement.0))?;
    let sized = notional(Price(odds.0), quantity)?;
    notional(rate, Qty(sized.0))
}

/// An amount with its sign turned.
pub open spec fn negated(amount: Money) -> Result<Money, BacktestError> {
    if amount.0 == i64::MIN {
        Err(BacktestError::Overflow { what: "Money::neg" })
    } else {
        Ok(Money((-amount.0) as i64))
    }
}

impl PredictionMarketFees {
    pub fn new(rate: Price) -> (r: Self)
        ensures
            r == (PredictionMarketFees { rate, maker_rebate: Price(0) }),
    {
        PredictionMarketFees { rate, maker_rebate: Price(0) }
    }

    pub fn with_maker_rebate(self, fraction: Price) -> (r: Self)
        ensures
            r == (PredictionMarketFees { maker_rebate: fraction, ..self }),
    {
        PredictionMarketFees { rate: self.rate, maker_rebate: fraction }
    }
}

impl FeeModel for PredictionMarketFees {
    open spec fn ready(&self) -> bool {
        true
    }

    open spec fn quote(&self, ctx: FeeContext) -> Result<Money, BacktestError> {
        match curved(self.rate, ctx.price, ctx.quantity) {
            Err(e) => Err(e),
            Ok(fee) => if ctx.is_taker {
                Ok(fee)
            } else if self.maker_rebate.0 == 0 {
                Ok(Money(0))
            } else {
                match value_of(self.maker_rebate.0 as int, fee.0 as int) {
                    Ok(rebate) => negated(rebate),
                    Err(e) => Err(e),
                }
            },
        }
    }

    open spec fn charged(&self, ctx: FeeContext, after: &Self) -> bool {
        *after == *self
    }

    open spec fn released(&self, order_id: OrderId, after: &Self) -> bool {
        *after == *self
    }

    fn commission(&mut self, ctx: FeeContext) -> (r: Result<Money, BacktestError>) {
        let fee = curve(self.rate, ctx.price, ctx.quantity)?;
        if ctx.is_taker {
            Ok(fee)
        } else if self.maker_rebate.is_zero() {
            Ok(Money(0))
        } else {
            // Negative commission: the venue pays the maker.
            let rebate = notional(self.maker_rebate, Qty(fee.0))?;
            if rebate.0 == i64::MIN {
                return Err(BacktestError::Overflow { what: "Money::neg" });
            }
            Ok(Money(-rebate.0))
        }
    }

    fn order_closed(&mut self, order_id: OrderId) {
    }
}

/// The curve is symmetric about a half: a price and its complement cost the
/// same.
pub proof fn curve_is_symmetric(rate: Price, price: Price, quantity: Qty)
    requires
        0 <= price.0 <= SCALE,
    ensures
        curved(rate, Price((SCALE - price.0) as i64), quantity) == curved(rate, price, quantity),
{
    let p = price.0 as int;
    assert(p * (SCALE - p) == (SCALE - p) * p) by (nonlinear_arith);
}

/// Certainty costs nothing: the fee vanishes at zero and at one.
pub proof fn curve_vanishes_at_certainty(rate: Price, quantity: Qty)
    ensures
        curved(rate, Price(0), quantity) == Ok::<Money, BacktestError>(Money(0)),
        curved(rate, Price(SCALE), quantity) == Ok::<Money, BacktestError>(Money(0)),
{
    assert(0 * (SCALE - 0) == 0) by (nonlinear_arith);
    assert(SCALE * (SCALE - SCALE) == 0) by (nonlinear_arith);
    assert(0 * (quantity.0 as int) == 0) by (nonlinear_arith);
    assert((rate.0 as int) * 0 == 0) by (nonlinear_arith);
}

/// The curve peaks at even odds: no price costs a taker more than a half.
pub proof fn curve_peaks_at_even_odds(rate: Price, price: Price, quantity: Qty)
    requires
        0 <= price.0 <= SCALE,
        rate.0 >= 0,
        quantity.0 >= 0,
        curved(rate, Price(500_000_000), quantity) is Ok,
    ensures
        curved(rate, price, quantity) is Ok,
        (curved(rate, price, quantity)->Ok_0).0 <= (curved(
            rate,
            Price(500_000_000),
            quantity,
        )->Ok_0).0,
        (curved(rate, price, quantity)->Ok_0).0 >= 0,
{
    let p = price.0 as int;
    let half = 500_000_000int;
    let q = quantity.0 as int;
    let r = rate.0 as int;
    assert(0 <= p * (SCALE - p) <= half * (SCALE - half)) by (nonlinear_arith)
        requires
            0 <= p <= SCALE,
            SCALE == 1_000_000_000,
            half == 500_000_000,
    ;
    let o1 = notional_of(p, SCALE - p);
    let o2 = notional_of(half, SCALE - half);
    assert(0 <= o1 <= o2);
    assert(0 <= o1 * q <= o2 * q) by (nonlinear_arith)
        requires
            0 <= o1 <= o2,
            q >= 0,
    ;
    let s1 = notional_of(o1, q);
    let s2 = notional_of(o2, q);
    assert(0 <= s1 <= s2);
    assert(0 <= r * s1 <= r * s2) by (nonlinear_arith)
        requires
            0 <= s1 <= s2,
            r >= 0,
    ;
}

/// A proportional fee is the rate times the price times the quantity, to
/// within half a raw unit in each of the two products: the taker's rate for
/// a taker and the maker's for a maker. It is charged wherever the notional
/// is ordinary and the rate no more than the whole of it.
pub proof fn a_proportional_fee_is_a_share_of_the_notional(
    model: ProportionalFees,
    ctx: FeeContext,
)
    ensures
        ({
            let rate = if ctx.is_taker {
                model.taker.0 as int
            } else {
                model.maker.0 as int
            };
            let slack = 1_000_000_000 * (if rate < 0 {
                -rate
            } else {
                rate
            }) + 1_000_000_000_000_000_000;
            let notional = ctx.price.0 * ctx.quantity.0;
            &&& model.quote(ctx) matches Ok(fee) ==> -slack <= 2 * (fee.0
                * 1_000_000_000_000_000_000 - rate * notional) <= slack
            &&& model.quote(ctx) matches Ok(fee) ==> rate == 0 ==> fee.0 == 0
            &&& -0x4000_0000_0000_0000 * 1_000_000_000 <= notional <= 0x4000_0000_0000_0000
                * 1_000_000_000 && -1_000_000_000 <= rate <= 1_000_000_000 ==> model.quote(
                ctx,
            ) is Ok
        }),
{
    let rate = if ctx.is_taker {
        model.taker.0 as int
    } else {
        model.maker.0 as int
    };
    let exact = ctx.price.0 * ctx.quantity.0;
    let gross = notional_of(ctx.price.0 as int, ctx.quantity.0 as int);
    a_value_is_the_nearest(ctx.price.0 as int, ctx.quantity.0 as int);
    a_value_is_the_nearest(rate, gross);
    if rate == 0 {
        assert(rate * gross == 0) by (nonlinear_arith)
            requires
                rate == 0,
        ;
    }
    if model.quote(ctx) is Ok {
        let fee = model.quote(ctx)->Ok_0.0 as int;
        a_share_is_near(rate, gross, exact, fee);
    }
    if -0x4000_0000_0000_0000 * 1_000_000_000 <= exact <= 0x4000_0000_0000_0000 * 1_000_000_000
        && -1_000_000_000 <= rate <= 1_000_000_000 {
        assert(-0x4000_0000_0000_0000 * 1_000_000_000 <= rate * gross <= 0x4000_0000_0000_0000
            * 1_000_000_000) by (nonlinear_arith)
            requires
                -0x4000_0000_0000_0000 <= gross <= 0x4000_0000_0000_0000,
                -1_000_000_000 <= rate <= 1_000_000_000,
        ;
    }
}

/// A proportional fee reads the rate of its own side of the trade alone.
pub proof fn proportional_rates_are_separate(
    a: ProportionalFees,
    b: ProportionalFees,
    ctx: FeeContext,
)
    ensures
        ctx.is_taker && a.taker == b.taker ==> a.quote(ctx) == b.quote(ctx),
        !ctx.is_taker && a.maker == b.maker ==> a.quote(ctx) == b.quote(ctx),
{
}

/// The curve is the rate times the quantity times the odds times their
/// complement, to within half a raw unit in each of the three products, and
/// there is one for every price that is a probability, every quantity and
/// every rate up to the whole.
pub proof fn the_curve_is_the_product(rate: Price, price: Price, quantity: Qty)
    ensures
        ({
            let (r, p, q) = (rate.0 as int, price.0 as int, quantity.0 as int);
            let slack = 1_000_000_000_000_000_000_000_000_000 + 1_000_000_000_000_000_000 * (if r
                < 0 {
                -r
            } else {
                r
            }) + 1_000_000_000 * (if r * q < 0 {
                -(r * q)
            } else {
                r * q
            });
            let exact = r * q * (p * (1_000_000_000 - p));
            &&& curved(rate, price, quantity) matches Ok(fee) ==> -slack <= 2 * (fee.0
                * 1_000_000_000_000_000_000_000_000_000 - exact) <= slack
            &&& 0 <= p <= 1_000_000_000 && q >= 0 && 0 <= r <= 1_000_000_000 ==> curved(
                rate,
                price,
                quantity,
            ) is Ok && 0 <= curved(rate, price, quantity)->Ok_0.0 <= q
        }),
{
    let (r, p, q) = (rate.0 as int, price.0 as int, quantity.0 as int);
    let y = p * (1_000_000_000 - p);
    let odds = notional_of(p, 1_000_000_000 - p);
    let sized = notional_of(odds, q);
    a_value_is_the_nearest(p, 1_000_000_000 - p);
    a_value_is_the_nearest(odds, q);
    a_value_is_the_nearest(r, sized);
    if curved(rate, price, quantity) is Ok {
        let fee = curved(rate, price, quantity)->Ok_0.0 as int;
        let e1 = odds * 1_000_000_000 - y;
        let e2 = sized * 1_000_000_000 - odds * q;
        let e3 = fee * 1_000_000_000 - r * sized;
        errors_scale(r * q, e1);
        errors_scale(r, e2);
        let exact = r * q * y;
        assert(fee * 1_000_000_000_000_000_000_000_000_000 - exact == 1_000_000_000_000_000_000
            * e3 + 1_000_000_000 * (r * e2) + (r * q) * e1) by (nonlinear_arith)
            requires
                exact == r * q * y,
                e1 == odds * 1_000_000_000 - y,
                e2 == sized * 1_000_000_000 - odds * q,
                e3 == fee * 1_000_000_000 - r * sized,
        ;
    }
    if 0 <= p <= 1_000_000_000 && q >= 0 && 0 <= r <= 1_000_000_000 {
        assert(0 <= y <= 1_000_000_000 * 1_000_000_000) by (nonlinear_arith)
            requires
                y == p * (1_000_000_000 - p),
                0 <= p <= 1_000_000_000,
        ;
        assert(0 <= odds <= 1_000_000_000);
        assert(0 <= odds * q <= 1_000_000_000 * q) by (nonlinear_arith)
            requires
                0 <= odds <= 1_000_000_000,
                q >= 0,
        ;
        assert(0 <= sized <= q);
        assert(0 <= r * sized <= 1_000_000_000 * q) by (nonlinear_arith)
            requires
                0 <= r <= 1_000_000_000,
                0 <= sized <= q,
        ;
    }
}

/// A prediction-market taker pays the curve, and a maker never pays: without
/// a rebate a maker is charged nothing, and with one is paid that fraction
/// of what a taker would have been charged on the same fill, to within half
/// a raw unit.
pub proof fn prediction_market_makers_are_paid(
    model: PredictionMarketFees,
    taker: FeeContext,
    maker: FeeContext,
)
    requires
        taker.is_taker,
        !maker.is_taker,
        taker.price == maker.price,
        taker.quantity == maker.quantity,
    ensures
        model.quote(taker) == curved(model.rate, taker.price, taker.quantity),
        model.quote(taker) is Err ==> model.quote(maker) == model.quote(taker),
        model.quote(taker) matches Ok(fee) ==> {
            &&& model.maker_rebate.0 == 0 ==> model.quote(maker) == Ok::<Money, BacktestError>(
                Money(0),
            )
            &&& model.quote(maker) matches Ok(paid) ==> -SCALE <= 2 * (paid.0 * SCALE
                + model.maker_rebate.0 * fee.0) <= SCALE
            &&& fee.0 >= 0 && 0 <= model.maker_rebate.0 <= SCALE ==> {
                &&& model.quote(maker) is Ok
                &&& -fee.0 <= model.quote(maker)->Ok_0.0 <= 0
            }
        },
{
    if model.quote(taker) is Ok {
        let fee = model.quote(taker)->Ok_0.0 as int;
        let rebate = model.maker_rebate.0 as int;
        a_value_is_the_nearest(rebate, fee);
        if rebate == 0 {
            assert(rebate * fee == 0) by (nonlinear_arith)
                requires
                    rebate == 0,
            ;
        }
        if fee >= 0 && 0 <= rebate <= SCALE {
            assert(0 <= rebate * fee <= 1_000_000_000 * fee) by (nonlinear_arith)
                requires
                    fee >= 0,
                    0 <= rebate <= 1_000_000_000,
            ;
        }
    }
}

/// A centicent: a hundredth of a cent.
pub const CENTICENT: i64 = 100_000;

/// A cent.
pub const CENT: i64 = 10_000_000;

/// Kalshi's quadratic fees with exchange balance rounding.
///
/// The trade component is `rate * quantity * p * (1-p)`, rounded up to a
/// centicent. The resulting cash movement is then floored to a whole cent.
/// Rounding overpayment accumulates per order and is rebated in whole cents,
/// matching Kalshi's documented partial-fill treatment.
pub struct KalshiFees {
    pub taker_rate: Price,
    /// `None` for series without maker fees.
    pub maker_rate: Option<Price>,
    rounding: SortedMap<u64, i64>,
}

/// The trade component of the fee: the curve, rounded up to a centicent.
pub open spec fn kalshi_trade_fee(rate: Option<Price>, price: Price, quantity: Qty) -> Result<
    Money,
    BacktestError,
> {
    match rate {
        None => Ok(Money(0)),
        Some(rate) => match curved(rate, price, quantity) {
            Err(e) => Err(e),
            Ok(fee) => if !fits(fee.0 + (CENTICENT - 1)) {
                Err(BacktestError::Overflow { what: "rounding Kalshi trade fee" })
            } else {
                Ok(Money((div_trunc(fee.0 + (CENTICENT - 1), CENTICENT as int) * CENTICENT) as i64))
            },
        },
    }
}

/// What a fill costs on top of its trade fee so that the cash movement comes
/// out in whole cents.
pub open spec fn kalshi_rounding(side: Side, gross: Money, trade_fee: Money) -> int {
    let revenue = match side {
        Side::Buy => -gross.0,
        Side::Sell => gross.0 as int,
    };
    (revenue - trade_fee.0) % (CENT as int)
}

/// A charge: the commission, and the rounding carried over to the order's
/// next fill.
pub open spec fn kalshi_charge(
    rate: Option<Price>,
    carried: int,
    side: Side,
    price: Price,
    quantity: Qty,
) -> Result<(Money, int), BacktestError> {
    match kalshi_trade_fee(rate, price, quantity) {
        Err(e) => Err(e),
        Ok(trade_fee) => match value_of(price.0 as int, quantity.0 as int) {
            Err(e) => Err(e),
            Ok(gross) => {
                let revenue = match side {
                    Side::Buy => -gross.0,
                    Side::Sell => gross.0 as int,
                };
                let rounding = kalshi_rounding(side, gross, trade_fee);
                let saved = carried + rounding;
                let rebate = saved / (CENT as int) * CENT;
                let total = trade_fee.0 + rounding - rebate;
                if !fits(revenue) || !fits(revenue - trade_fee.0) {
                    Err(BacktestError::Overflow { what: "applying Kalshi trade fee" })
                } else if !fits(total) {
                    Err(BacktestError::Overflow { what: "Kalshi commission" })
                } else {
                    Ok((Money(total as i64), saved - rebate))
                }
            },
        },
    }
}

/// What is carried for an order.
pub open spec fn carried_for(carried: Map<u64, i64>, order: OrderId) -> int {
    if carried.dom().contains(order.0) {
        carried[order.0] as int
    } else {
        0
    }
}

/// What is carried is less than a cent per order.
pub open spec fn carries_cents(entries: Seq<(u64, i64)>) -> bool {
    forall|i: int| 0 <= i < entries.len() ==> 0 <= (#[trigger] entries[i]).1 < CENT
}

impl KalshiFees {
    /// The taker's rate and the maker's.
    pub closed spec fn rates(&self) -> (Price, Option<Price>) {
        (self.taker_rate, self.maker_rate)
    }

    /// The rate a fill is charged at.
    pub open spec fn rate_for(&self, is_taker: bool) -> Option<Price> {
        if is_taker {
            Some(self.rates().0)
        } else {
            self.rates().1
        }
    }

    /// The rounding carried per order.
    pub closed spec fn carried(&self) -> Map<u64, i64> {
        self.rounding@
    }

    pub closed spec fn wf(&self) -> bool {
        self.rounding.wf() && carries_cents(self.rounding.seq())
    }

    pub fn new(taker_rate: Price) -> (r: Result<Self, BacktestError>)
        ensures
            match r {
                Ok(f) => taker_rate.0 >= 0 && f.wf() && f.rates() == (
                    taker_rate,
                    None::<Price>,
                ) && f.carried() == Map::<u64, i64>::empty(),
                Err(e) => taker_rate.0 < 0 && says(e, "Kalshi fee rates must not be negative"@),
            },
    {
        Self::with_maker_rate(taker_rate, None)
    }

    pub fn with_maker_rate(taker_rate: Price, maker_rate: Option<Price>) -> (r: Result<
        Self,
        BacktestError,
    >)
        ensures
            ({
                let negative = taker_rate.0 < 0 || (maker_rate matches Some(rate) && rate.0 < 0);
                match r {
                    Ok(f) => !negative && f.wf() && f.rates() == (taker_rate, maker_rate)
                        && f.carried() == Map::<u64, i64>::empty(),
                    Err(e) => negative && says(e, "Kalshi fee rates must not be negative"@),
                }
            }),
    {
        let maker_negative = match maker_rate {
            Some(rate) => rate.0 < 0,
            None => false,
        };
        if taker_rate.0 < 0 || maker_negative {
            return Err(BacktestError::invalid("Kalshi fee rates must not be negative"));
        }
        Ok(KalshiFees { taker_rate, maker_rate, rounding: SortedMap::new() })
    }

    fn trade_fee(rate: Option<Price>, price: Price, quantity: Qty) -> (r: Result<
        Money,
        BacktestError,
    >)
        ensures
            r == kalshi_trade_fee(rate, price, quantity),
    {
        let rate = match rate {
            Some(rate) => rate,
            None => {
                return Ok(Money(0));
            },
        };
        let fee = curve(rate, price, quantity)?;
        match fee.0.checked_add(CENTICENT - 1) {
            None => Err(BacktestError::Overflow { what: "rounding Kalshi trade fee" }),
            Some(raised) => {
                let whole: i128 = crate::types::divide_trunc(raised as i128, CENTICENT as i128);
                proof {
                    let m = magnitude(raised as int);
                    assert(0 <= (m / 100_000) * 100_000 <= m);
                }
                Ok(Money((whole * CENTICENT as i128) as i64))
            },
        }
    }
}

impl FeeModel for KalshiFees {
    open spec fn ready(&self) -> bool {
        self.wf()
    }

    open spec fn quote(&self, ctx: FeeContext) -> Result<Money, BacktestError> {
        match kalshi_charge(
            self.rate_for(ctx.is_taker),
            carried_for(self.carried(), ctx.order_id),
            ctx.side,
            ctx.price,
            ctx.quantity,
        ) {
            Ok((commission, _)) => Ok(commission),
            Err(e) => Err(e),
        }
    }

    /// What rounding left over stays with the order.
    open spec fn charged(&self, ctx: FeeContext, after: &Self) -> bool {
        &&& after.rates() == self.rates()
        &&& match kalshi_charge(
            self.rate_for(ctx.is_taker),
            carried_for(self.carried(), ctx.order_id),
            ctx.side,
            ctx.price,
            ctx.quantity,
        ) {
            Ok((_, left)) => after.carried() == self.carried().insert(
                ctx.order_id.0,
                left as i64,
            ),
            Err(_) => *after == *self,
        }
    }

    open spec fn released(&self, order_id: OrderId, after: &Self) -> bool {
        &&& after.rates() == self.rates()
        &&& after.carried() == self.carried().remove(order_id.0)
    }

    fn commission(&mut self, ctx: FeeContext) -> (r: Result<Money, BacktestError>) {
        let rate = if ctx.is_taker {
            Some(self.taker_rate)
        } else {
            self.maker_rate
        };
        let trade_fee = Self::trade_fee(rate, ctx.price, ctx.quantity)?;
        let gross = notional(ctx.price, ctx.quantity)?;
        let revenue: i128 = match ctx.side {
            Side::Buy => -(gross.0 as i128),
            Side::Sell => gross.0 as i128,
        };
        let after: i128 = revenue - trade_fee.0 as i128;
        if revenue > i64::MAX as i128 || after < i64::MIN as i128 || after > i64::MAX as i128 {
            return Err(BacktestError::Overflow { what: "applying Kalshi trade fee" });
        }
        let rounding: i64 = cents_over(after as i64);
        proof {
            entries_map_contains(self.rounding.seq());
        }
        let carried: i64 = match self.rounding.get(&ctx.order_id.0) {
            Some(carried) => *carried,
            None => 0,
        };
        let saved: i64 = carried + rounding;
        let rebate: i64 = saved / CENT * CENT;
        let left: i64 = saved - rebate;
        let total: i128 = trade_fee.0 as i128 + rounding as i128 - rebate as i128;
        if total < i64::MIN as i128 || total > i64::MAX as i128 {
            return Err(BacktestError::Overflow { what: "Kalshi commission" });
        }
        let ghost before = self.rounding.seq();
        let at = self.rounding.insert(ctx.order_id.0, left);
        proof {
            let entries = self.rounding.seq();
            assert forall|i: int| 0 <= i < entries.len() implies 0 <= (#[trigger] entries[i]).1
                < CENT by {
                if i == at {
                } else if old(self).rounding@.dom().contains(ctx.order_id.0) || i < at {
                    assert(entries[i] == before[i]);
                } else {
                    assert(entries[i] == before[i - 1]);
                }
            }
        }
        Ok(Money(total as i64))
    }

    fn order_closed(&mut self, order_id: OrderId) {
        let ghost before = self.rounding.seq();
        self.rounding.remove(&order_id.0);
        proof {
            let entries = self.rounding.seq();
            if entries != before {
                let k = choose|k: int|
                    0 <= k < before.len() && before[k].0@ == order_id.0@ && entries
                        == #[trigger] before.remove(k);
                assert forall|i: int| 0 <= i < entries.len() implies 0 <= (#[trigger] entries[i]).1
                    < CENT by {
                    if i < k {
                        assert(entries[i] == before[i]);
                    } else {
                        assert(entries[i] == before[i + 1]);
                    }
                }
            }
        }
    }
}

/// How far an amount is above the whole cent below it.
fn cents_over(amount: i64) -> (r: i64)
    ensures
        r == amount as int % (CENT as int),
        0 <= r < CENT,
{
    if amount >= 0 {
        amount % CENT
    } else {
        let wide: i128 = -(amount as i128);
        let rest: i64 = (wide % (CENT as i128)) as i64;
        if rest == 0 {
            0
        } else {
            CENT - rest
        }
    }
}

/// Rounding is returned: what a fill is charged beyond its trade fee is what
/// is carried over to the order's next fill beyond what was carried into
/// this one, and that is always less than a cent. What the fill moves in cash
/// comes out in whole cents.
pub proof fn kalshi_rounding_is_returned(
    rate: Option<Price>,
    carried: int,
    side: Side,
    price: Price,
    quantity: Qty,
)
    requires
        0 <= carried < CENT,
        kalshi_charge(rate, carried, side, price, quantity) is Ok,
    ensures
        ({
            let trade_fee = kalshi_trade_fee(rate, price, quantity)->Ok_0;
            let charge = kalshi_charge(rate, carried, side, price, quantity)->Ok_0;
            let gross = value_of(price.0 as int, quantity.0 as int)->Ok_0;
            &&& 0 <= charge.1 < CENT
            &&& (charge.0).0 - trade_fee.0 == charge.1 - carried
            &&& ((match side {
                Side::Buy => -gross.0,
                Side::Sell => gross.0 as int,
            }) - (charge.0).0) % (CENT as int) == 0
        }),
{
}

/// What an order has been charged beyond its trade fees, over a run of
/// charges among which its fills stand.
pub open spec fn kalshi_excess(
    models: Seq<KalshiFees>,
    fills: Seq<FeeContext>,
    order: OrderId,
) -> int
    decreases fills.len(),
{
    if fills.len() == 0 {
        0
    } else {
        let model = models[fills.len() - 1];
        let fill = fills.last();
        kalshi_excess(models, fills.drop_last(), order) + if fill.order_id == order {
            model.quote(fill)->Ok_0.0 - kalshi_trade_fee(
                model.rate_for(fill.is_taker),
                fill.price,
                fill.quantity,
            )->Ok_0.0
        } else {
            0
        }
    }
}

/// Over all the fills of an order, whatever is charged to others in between,
/// the commissions exceed the trade fees by what is still carried for it: by
/// less than a cent.
pub proof fn kalshi_fees_over_an_order(
    models: Seq<KalshiFees>,
    fills: Seq<FeeContext>,
    order: OrderId,
)
    requires
        models.len() == fills.len() + 1,
        carried_for(models[0].carried(), order) == 0,
        forall|i: int|
            0 <= i < fills.len() ==> models[i].quote(#[trigger] fills[i]) is Ok
                && models[i].charged(fills[i], &models[i + 1]),
    ensures
        kalshi_excess(models, fills, order) == carried_for(models.last().carried(), order),
        0 <= kalshi_excess(models, fills, order) < CENT,
    decreases fills.len(),
{
    if fills.len() > 0 {
        let n = fills.len() - 1;
        let earlier = fills.drop_last();
        let before = models.drop_last();
        assert forall|i: int| 0 <= i < earlier.len() implies before[i].quote(
            #[trigger] earlier[i],
        ) is Ok && before[i].charged(earlier[i], &before[i + 1]) by {
            assert(earlier[i] == fills[i]);
        }
        kalshi_fees_over_an_order(before, earlier, order);
        kalshi_excess_so_far(models, before, earlier, order);
        let fill = fills[n];
        assert(models[n].quote(fill) is Ok && models[n].charged(fill, &models[n + 1]));
        if fill.order_id == order {
            kalshi_rounding_is_returned(
                models[n].rate_for(fill.is_taker),
                carried_for(models[n].carried(), order),
                fill.side,
                fill.price,
                fill.quantity,
            );
        }
    }
}

proof fn kalshi_excess_so_far(
    models: Seq<KalshiFees>,
    before: Seq<KalshiFees>,
    fills: Seq<FeeContext>,
    order: OrderId,
)
    requires
        fills.len() < before.len() <= models.len(),
        forall|i: int| 0 <= i < before.len() ==> #[trigger] before[i] == models[i],
    ensures
        kalshi_excess(models, fills, order) == kalshi_excess(before, fills, order),
    decreases fills.len(),
{
    if fills.len() > 0 {
        kalshi_excess_so_far(models, before, fills.drop_last(), order);
        assert(before[fills.len() - 1] == models[fills.len() - 1]);
    }
}

/// Each side of a trade pays its own rate: what a maker is charged does not
/// depend on the taker's rate, nor what a taker is charged on the maker's.
pub proof fn kalshi_rates_are_separate(a: KalshiFees, b: KalshiFees, ctx: FeeContext)
    requires
        carried_for(a.carried(), ctx.order_id) == carried_for(b.carried(), ctx.order_id),
    ensures
        !ctx.is_taker && a.rates().1 == b.rates().1 ==> a.quote(ctx) == b.quote(ctx),
        ctx.is_taker && a.rates().0 == b.rates().0 ==> a.quote(ctx) == b.quote(ctx),
{
}

/// A maker's rate is a rate like a taker's: a maker is charged on it what a
/// taker would be charged under a schedule with that taker's rate.
pub proof fn kalshi_makers_with_a_rate_pay_it(
    makers: KalshiFees,
    takers: KalshiFees,
    maker: FeeContext,
    taker: FeeContext,
)
    requires
        makers.rates().1 == Some(takers.rates().0),
        carried_for(makers.carried(), maker.order_id) == carried_for(
            takers.carried(),
            taker.order_id,
        ),
        !maker.is_taker,
        taker.is_taker,
        maker.side == taker.side,
        maker.price == taker.price,
        maker.quantity == taker.quantity,
    ensures
        makers.quote(maker) == takers.quote(taker),
{
}

proof fn kalshi_carries_less_than_a_cent(model: KalshiFees, order: OrderId)
    requires
        model.wf(),
    ensures
        0 <= carried_for(model.carried(), order) < CENT,
{
    entries_map_contains(model.rounding.seq());
}

/// A series without a maker rate charges makers no fee. What a maker is
/// charged there is only what brings the cash movement to a whole cent, less
/// what the order has saved up: under a cent either way, nothing where the
/// cash movement is in whole cents already, and never less than nothing on
/// an order that has saved nothing.
pub proof fn kalshi_makers_without_a_rate_pay_no_fee(
    model: KalshiFees,
    ctx: FeeContext,
    after: KalshiFees,
)
    requires
        model.wf(),
        model.rates().1 is None,
        !ctx.is_taker,
        model.charged(ctx, &after),
    ensures
        model.quote(ctx) matches Ok(charge) ==> {
            let moved = notional_of(ctx.price.0 as int, ctx.quantity.0 as int);
            let cash = if ctx.side == Side::Buy {
                -moved
            } else {
                moved
            };
            let before = carried_for(model.carried(), ctx.order_id);
            &&& -10_000_000 < charge.0 < 10_000_000
            &&& before == 0 ==> charge.0 >= 0
            &&& moved % 10_000_000 == 0 ==> charge.0 == 0
            &&& (cash - charge.0) % 10_000_000 == 0
            &&& charge.0 == carried_for(after.carried(), ctx.order_id) - before
        },
        -0x4000_0000_0000_0000 * 1_000_000_000 <= ctx.price.0 * ctx.quantity.0
            <= 0x4000_0000_0000_0000 * 1_000_000_000 ==> model.quote(ctx) is Ok,
{
    kalshi_carries_less_than_a_cent(model, ctx.order_id);
    a_value_is_the_nearest(ctx.price.0 as int, ctx.quantity.0 as int);
}

/// A fill at a rate is charged its trade fee and the rounding to a cent. The
/// trade fee is whole centicents: the rate times the quantity times the odds
/// times their complement, to within what three products round, and then up
/// to the next centicent. What is charged beside it is what the order has
/// saved up by it, which stays below a cent, and the cash movement comes out
/// in whole cents. Nothing else is turned away than what does not fit.
pub proof fn kalshi_fees_are_the_curve_in_whole_cents(
    model: KalshiFees,
    ctx: FeeContext,
    rate: Price,
    after: KalshiFees,
)
    requires
        model.wf(),
        ctx.is_taker ==> model.rates().0 == rate,
        !ctx.is_taker ==> model.rates().1 == Some(rate),
        rate.0 >= 0,
        ctx.quantity.0 >= 0,
        0 <= ctx.price.0 <= SCALE,
        model.charged(ctx, &after),
    ensures
        model.quote(ctx) matches Ok(charge) ==> {
            let (r, p, q) = (rate.0 as int, ctx.price.0 as int, ctx.quantity.0 as int);
            let exact = r * q * (p * (1_000_000_000 - p));
            let slack = 1_000_000_000_000_000_000_000_000_000 + 1_000_000_000_000_000_000 * r
                + 1_000_000_000 * (r * q);
            let moved = notional_of(p, q);
            let cash = if ctx.side == Side::Buy {
                -moved
            } else {
                moved
            };
            let before = carried_for(model.carried(), ctx.order_id);
            let saved = carried_for(after.carried(), ctx.order_id);
            let trade_fee = charge.0 + before - saved;
            &&& 0 <= saved < 10_000_000
            &&& trade_fee >= 0
            &&& trade_fee % 100_000 == 0
            &&& 2 * (trade_fee * 1_000_000_000_000_000_000_000_000_000 - exact) >= -slack
            &&& 2 * ((trade_fee - 100_000) * 1_000_000_000_000_000_000_000_000_000 - exact) < slack
            &&& (cash - charge.0) % 10_000_000 == 0
        },
        rate.0 <= SCALE && ctx.quantity.0 <= 0x2000_0000_0000_0000 ==> model.quote(ctx) is Ok,
{
    let (r, p, q) = (rate.0 as int, ctx.price.0 as int, ctx.quantity.0 as int);
    kalshi_carries_less_than_a_cent(model, ctx.order_id);
    a_value_is_the_nearest(p, q);
    the_curve_is_the_product(rate, ctx.price, ctx.quantity);
    curve_is_not_negative(rate, ctx.price, ctx.quantity);
    assert(r * q >= 0) by (nonlinear_arith)
        requires
            r >= 0,
            q >= 0,
    ;
    assert(0 <= p * q <= 1_000_000_000 * q) by (nonlinear_arith)
        requires
            0 <= p <= 1_000_000_000,
            q >= 0,
    ;
    if curved(rate, ctx.price, ctx.quantity) is Ok {
        let fee = curved(rate, ctx.price, ctx.quantity)->Ok_0.0 as int;
        let raised = (fee + 99_999) / 100_000 * 100_000;
        assert(fee <= raised < fee + 100_000);
        assert(raised % 100_000 == 0);
    }
}

proof fn curve_is_not_negative(rate: Price, price: Price, quantity: Qty)
    requires
        rate.0 >= 0,
        quantity.0 >= 0,
        0 <= price.0 <= SCALE,
    ensures
        curved(rate, price, quantity) matches Ok(fee) ==> fee.0 >= 0,
{
    let (r, p, q) = (rate.0 as int, price.0 as int, quantity.0 as int);
    let odds = notional_of(p, 1_000_000_000 - p);
    let sized = notional_of(odds, q);
    assert(p * (1_000_000_000 - p) >= 0) by (nonlinear_arith)
        requires
            0 <= p <= 1_000_000_000,
    ;
    assert(odds >= 0);
    assert(odds * q >= 0) by (nonlinear_arith)
        requires
            odds >= 0,
            q >= 0,
    ;
    assert(sized >= 0);
    assert(r * sized >= 0) by (nonlinear_arith)
        requires
            r >= 0,
            sized >= 0,
    ;
}

/// What rounding saves is kept per order: a charge touches its own order
/// alone, a refused one nothing, closing an order forgets what it saved, and
/// none of it touches the rates.
pub proof fn kalshi_savings_are_kept_per_order(
    model: KalshiFees,
    ctx: FeeContext,
    charged: KalshiFees,
    released: KalshiFees,
    other: OrderId,
)
    requires
        model.charged(ctx, &charged),
        model.released(ctx.order_id, &released),
    ensures
        other != ctx.order_id || model.quote(ctx) is Err ==> carried_for(charged.carried(), other)
            == carried_for(model.carried(), other),
        carried_for(released.carried(), other) == (if other == ctx.order_id {
            0
        } else {
            carried_for(model.carried(), other)
        }),
        charged.rates() == model.rates(),
        released.rates() == model.rates(),
{
}

/// One step of a volume-tiered fee schedule.
#[derive(Clone, Copy, PartialEq, Eq, Debug, Structural)]
pub struct FeeTier {
    /// Rolling traded notional at or above which this tier applies.
    pub volume_from: Money,
    /// Signed: a negative maker fee is a rebate, which the top tiers of a
    /// real schedule actually pay.
    pub maker: Price,
    pub taker: Price,
}

/// Fees that fall as rolling traded volume rises.
///
/// The schedule is supplied rather than baked in: venues republish theirs,
/// and a stale table compiled into a backtester is worse than no table at
/// all because it looks authoritative.
///
/// Volume is counted over a trailing window and a fill is priced at the
/// tier the account was in *before* it, which is what a venue does.
pub struct TieredFees {
    tiers: SortedMap<i64, FeeTier>,
    window_nanos: i64,
    traded: VecDeque<(i64, i64)>,
}

/// The tiers by the volume they start at. A volume listed twice has the tier
/// listed last.
pub open spec fn tiers_by_volume(tiers: Seq<FeeTier>) -> Map<i64, FeeTier>
    decreases tiers.len(),
{
    if tiers.len() == 0 {
        Map::empty()
    } else {
        tiers_by_volume(tiers.drop_last()).insert(tiers.last().volume_from.0, tiers.last())
    }
}

/// Whether two tiers start at the same volume.
pub open spec fn volumes_clash(tiers: Seq<FeeTier>) -> bool {
    exists|i: int, j: int|
        #![trigger tiers[i], tiers[j]]
        0 <= i < j < tiers.len() && tiers[i].volume_from == tiers[j].volume_from
}

/// Whether the lowest tier starts at zero volume.
pub open spec fn starts_at_zero(tiers: Seq<FeeTier>) -> bool {
    &&& exists|i: int| 0 <= i < tiers.len() && (#[trigger] tiers[i]).volume_from.0 == 0
    &&& forall|i: int| 0 <= i < tiers.len() ==> (#[trigger] tiers[i]).volume_from.0 >= 0
}

/// The tier an account with this much volume is in: the one that starts at
/// the highest volume reached, or the lowest one where none is reached.
pub open spec fn is_tier_for(schedule: Map<i64, FeeTier>, volume: Money, tier: FeeTier) -> bool {
    exists|from: i64| #[trigger]
        schedule.dom().contains(from) && schedule[from] == tier && if volume.0 >= 0 {
            from <= volume.0 && forall|other: i64| #[trigger]
                schedule.dom().contains(other) && other <= volume.0 ==> other <= from
        } else {
            from == 0
        }
}

/// What was traded, with what is older than the cutoff dropped from the
/// front.
pub open spec fn since(traded: Seq<(i64, i64)>, cutoff: int) -> Seq<(i64, i64)>
    decreases traded.len(),
{
    if traded.len() > 0 && traded[0].0 < cutoff {
        since(traded.drop_first(), cutoff)
    } else {
        traded
    }
}

/// The sum of the amounts traded.
pub open spec fn traded_sum(traded: Seq<(i64, i64)>) -> int
    decreases traded.len(),
{
    if traded.len() == 0 {
        0
    } else {
        traded_sum(traded.drop_last()) + traded.last().1
    }
}

/// The sum of the amounts traded, as an amount of money.
pub open spec fn rolling_volume(traded: Seq<(i64, i64)>) -> Money {
    let sum = traded_sum(traded);
    Money(
        (if sum < 0 {
            0
        } else if sum > i64::MAX {
            i64::MAX as int
        } else {
            sum
        }) as i64,
    )
}

impl TieredFees {
    /// The tiers by the volume they start at.
    pub closed spec fn schedule(&self) -> Map<i64, FeeTier> {
        self.tiers@
    }

    /// How far back volume is counted.
    pub closed spec fn window(&self) -> i64 {
        self.window_nanos
    }

    /// When something was traded, and how much.
    pub closed spec fn history(&self) -> Seq<(i64, i64)> {
        self.traded@
    }

    /// There is a tier from zero volume on, and none below.
    pub closed spec fn wf(&self) -> bool {
        &&& self.tiers.wf()
        &&& self.tiers.seq().len() > 0
        &&& self.tiers.seq()[0].0 == 0
    }

    /// `tiers` must start at zero volume and rise; `window_nanos` is how
    /// far back the volume is counted.
    pub fn new(tiers: Vec<FeeTier>, window_nanos: i64) -> (r: Result<Self, BacktestError>)
        ensures
            match r {
                Ok(f) => {
                    &&& window_nanos > 0
                    &&& starts_at_zero(tiers@)
                    &&& !volumes_clash(tiers@)
                    &&& f.wf()
                    &&& f.schedule() == tiers_by_volume(tiers@)
                    &&& f.window() == window_nanos
                    &&& f.history() == Seq::<(i64, i64)>::empty()
                },
                Err(e) => {
                    if tiers@.len() == 0 {
                        says(e, "a fee schedule needs at least one tier"@)
                    } else if window_nanos <= 0 {
                        says(e, "a rolling fee window must be positive"@)
                    } else if !starts_at_zero(tiers@) {
                        says(
                            e,
                            "the first fee tier must start at zero volume; an account that has never traded still has to be charged something"@,
                        )
                    } else {
                        volumes_clash(tiers@) && says(
                            e,
                            "two fee tiers start at the same volume, so which one applies would depend on sort order"@,
                        )
                    }
                },
            },
    {
        if tiers.len() == 0 {
            return Err(BacktestError::invalid("a fee schedule needs at least one tier"));
        }
        if window_nanos <= 0 {
            return Err(BacktestError::invalid("a rolling fee window must be positive"));
        }
        let mut sorted: SortedMap<i64, FeeTier> = SortedMap::new();
        let mut clash = false;
        let n: usize = tiers.len();
        let mut i: usize = 0;
        assert(tiers@.take(0) =~= Seq::<FeeTier>::empty());
        while i < n
            invariant
                n == tiers@.len(),
                i <= n,
                sorted.wf(),
                sorted@ == tiers_by_volume(tiers@.take(i as int)),
                forall|k: i64| #[trigger]
                    sorted@.dom().contains(k) <==> exists|j: int|
                        0 <= j < i && (#[trigger] tiers@[j]).volume_from.0 == k,
                clash == volumes_clash(tiers@.take(i as int)),
            decreases n - i,
        {
            let tier = tiers[i];
            let ghost t = tiers@;
            let ghost k = tier.volume_from.0;
            let seen = sorted.contains_key(&tier.volume_from.0);
            proof {
                let before = t.take(i as int);
                let after = t.take(i + 1);
                assert(after.drop_last() =~= before);
                if seen {
                    let j = choose|j: int| 0 <= j < i && (#[trigger] t[j]).volume_from.0 == k;
                    assert(after[j].volume_from == after[i as int].volume_from);
                    assert(volumes_clash(after));
                } else if volumes_clash(after) {
                    let (a, b) = choose|a: int, b: int|
                        #![trigger after[a], after[b]]
                        0 <= a < b < after.len() && after[a].volume_from == after[b].volume_from;
                    if b == i {
                        assert(t[a].volume_from.0 == k);
                        assert(sorted@.dom().contains(k));
                        assert(false);
                    }
                    assert(before[a].volume_from == before[b].volume_from);
                    assert(volumes_clash(before));
                }
                if volumes_clash(before) {
                    let (a, b) = choose|a: int, b: int|
                        #![trigger before[a], before[b]]
                        0 <= a < b < before.len() && before[a].volume_from
                            == before[b].volume_from;
                    assert(after[a].volume_from == after[b].volume_from);
                    assert(volumes_clash(after));
                }
            }
            if seen {
                clash = true;
            }
            let ghost old_map = sorted@;
            sorted.insert(tier.volume_from.0, tier);
            proof {
                assert forall|x: i64| #[trigger]
                    sorted@.dom().contains(x) <==> exists|j: int|
                        0 <= j < i + 1 && (#[trigger] t[j]).volume_from.0 == x by {
                    if x == k {
                        assert(t[i as int].volume_from.0 == x);
                    } else if old_map.dom().contains(x) {
                        let j = choose|j: int| 0 <= j < i && (#[trigger] t[j]).volume_from.0 == x;
                        assert(t[j].volume_from.0 == x);
                    }
                    if exists|j: int| 0 <= j < i + 1 && (#[trigger] t[j]).volume_from.0 == x {
                        let j = choose|j: int|
                            0 <= j < i + 1 && (#[trigger] t[j]).volume_from.0 == x;
                        if j < i {
                            assert(old_map.dom().contains(x));
                        }
                    }
                }
            }
            i += 1;
        }
        proof {
            assert(tiers@.take(n as int) =~= tiers@);
            entries_map_contains(sorted.seq());
            let s = sorted.seq();
            assert(sorted@.dom().contains(tiers@[0].volume_from.0));
            assert(s.len() > 0);
            assert(sorted@.dom().contains(s[0].0));
            let j = choose|j: int| 0 <= j < n && (#[trigger] tiers@[j]).volume_from.0 == s[0].0;
            if s[0].0 == 0 {
                assert(tiers@[j].volume_from.0 == 0);
                assert forall|m: int| 0 <= m < n implies (#[trigger] tiers@[m]).volume_from.0
                    >= 0 by {
                    let v = tiers@[m].volume_from.0;
                    assert(sorted@.dom().contains(v));
                    let a = choose|a: int| 0 <= a < s.len() && (#[trigger] s[a]).0@ == v;
                    if a > 0 {
                        assert(i64::before(s[0].0@, s[a].0@));
                    }
                }
            } else if starts_at_zero(tiers@) {
                let m = choose|m: int| 0 <= m < n && (#[trigger] tiers@[m]).volume_from.0 == 0;
                assert(sorted@.dom().contains(0));
                let a = choose|a: int| 0 <= a < s.len() && (#[trigger] s[a]).0@ == 0i64;
                if a > 0 {
                    assert(i64::before(s[0].0@, s[a].0@));
                }
                assert(tiers@[j].volume_from.0 >= 0);
                assert(false);
            }
        }
        if *sorted.key_at(0) != 0 {
            return Err(
                BacktestError::invalid(
                    "the first fee tier must start at zero volume; an account that has never traded still has to be charged something",
                ),
            );
        }
        if clash {
            return Err(
                BacktestError::invalid(
                    "two fee tiers start at the same volume, so which one applies would depend on sort order",
                ),
            );
        }
        Ok(TieredFees { tiers: sorted, window_nanos, traded: VecDeque::new() })
    }

    /// The tier an account with this much rolling volume is in.
    pub fn tier_for(&self, volume: Money) -> (tier: FeeTier)
        requires
            self.wf(),
        ensures
            is_tier_for(self.schedule(), volume, tier),
            tier == self.tier_at(volume),
    {
        let ghost s = self.tiers.seq();
        proof {
            entries_map_contains(s);
        }
        // The first tier starting above the volume; the one before it
        // applies.
        let n: usize = self.tiers.len();
        let mut i: usize = n;
        while i > 1 && *self.tiers.key_at(i - 1) > volume.0
            invariant
                self.wf(),
                s == self.tiers.seq(),
                n == s.len(),
                1 <= i <= n,
                forall|j: int| i <= j < n ==> (#[trigger] s[j]).0 > volume.0,
            decreases i,
        {
            i = i - 1;
        }
        let tier = *self.tiers.value_at(i - 1);
        proof {
            let from = s[i - 1].0;
            assert(s[i - 1].0@ == from);
            assert(self.schedule().dom().contains(from));
            if volume.0 >= 0 {
                assert forall|other: i64| #[trigger]
                    self.schedule().dom().contains(other) && other <= volume.0 implies other
                    <= from by {
                    let j = choose|j: int| 0 <= j < s.len() && (#[trigger] s[j]).0@ == other;
                    if j < i - 1 {
                        assert(i64::before(s[j].0@, s[i - 1].0@));
                    }
                }
            } else if i > 1 {
                assert(i64::before(s[0].0@, s[i - 1].0@));
            }
            assert(is_tier_for(self.schedule(), volume, tier));
            tier_is_unique(self.schedule(), volume, tier, self.tier_at(volume));
        }
        tier
    }

    /// The tier an account with this much rolling volume is in.
    pub open spec fn tier_at(&self, volume: Money) -> FeeTier {
        choose|tier: FeeTier| is_tier_for(self.schedule(), volume, tier)
    }
}

/// Which tier applies is never a matter of choice.
pub proof fn tier_is_unique(schedule: Map<i64, FeeTier>, volume: Money, a: FeeTier, b: FeeTier)
    requires
        is_tier_for(schedule, volume, a),
        is_tier_for(schedule, volume, b),
    ensures
        a == b,
{
}

impl FeeModel for TieredFees {
    open spec fn ready(&self) -> bool {
        self.wf()
    }

    open spec fn quote(&self, ctx: FeeContext) -> Result<Money, BacktestError> {
        match absolute(value_of(ctx.price.0 as int, ctx.quantity.0 as int)) {
            Err(e) => Err(e),
            Ok(gross) => {
                let tier = self.tier_at(
                    rolling_volume(since(self.history(), saturated(ctx.ts.0 - self.window()))),
                );
                value_of(
                    (if ctx.is_taker {
                        tier.taker
                    } else {
                        tier.maker
                    }).0 as int,
                    gross.0 as int,
                )
            },
        }
    }

    /// The fill counts towards the volume of the window it falls in.
    open spec fn charged(&self, ctx: FeeContext, after: &Self) -> bool {
        &&& after.schedule() == self.schedule()
        &&& after.window() == self.window()
        &&& match absolute(value_of(ctx.price.0 as int, ctx.quantity.0 as int)) {
            Err(_) => after.history() == self.history(),
            Ok(gross) => after.history() == since(
                self.history(),
                saturated(ctx.ts.0 - self.window()),
            ).push((ctx.ts.0, gross.0)),
        }
    }

    open spec fn released(&self, order_id: OrderId, after: &Self) -> bool {
        *after == *self
    }

    fn commission(&mut self, ctx: FeeContext) -> (r: Result<Money, BacktestError>) {
        let gross = crate::account::gross_notional(ctx.price, ctx.quantity)?;
        let cutoff: i64 = saturating_difference(ctx.ts.0, self.window_nanos);
        let ghost all = self.traded@;
        while self.traded.len() > 0 && self.traded[0].0 < cutoff
            invariant
                self.wf(),
                self.tiers == old(self).tiers,
                self.window_nanos == old(self).window_nanos,
                since(all, cutoff as int) == since(self.traded@, cutoff as int),
            decreases self.traded@.len(),
        {
            let ghost before = self.traded@;
            self.traded.pop_front();
            assert(self.traded@ =~= before.drop_first());
        }
        let n: usize = self.traded.len();
        let mut sum: i128 = 0;
        let mut i: usize = 0;
        assert(self.traded@.take(0) =~= Seq::<(i64, i64)>::empty());
        while i < n
            invariant
                n == self.traded@.len(),
                i <= n,
                sum == traded_sum(self.traded@.take(i as int)),
                -(i * 0x8000_0000_0000_0000) <= sum <= i * 0x7fff_ffff_ffff_ffff,
            decreases n - i,
        {
            assert(self.traded@.take(i + 1).drop_last() =~= self.traded@.take(i as int));
            assert(i * 0x8000_0000_0000_0000 <= 0xffff_ffff_ffff_fffe * 0x8000_0000_0000_0000)
                by (nonlinear_arith)
                requires
                    i < 0xffff_ffff_ffff_ffff,
            ;
            sum = sum + self.traded[i].1 as i128;
            i += 1;
        }
        assert(self.traded@.take(n as int) =~= self.traded@);
        let rolling: i64 = if sum < 0 {
            0
        } else if sum > i64::MAX as i128 {
            i64::MAX
        } else {
            sum as i64
        };
        let tier = self.tier_for(Money(rolling));
        // Priced at the tier reached *before* this fill, then the fill
        // counts towards the next one.
        self.traded.push_back((ctx.ts.0, gross.0));
        let rate = if ctx.is_taker {
            tier.taker
        } else {
            tier.maker
        };
        notional(rate, Qty(gross.0))
    }

    fn order_closed(&mut self, order_id: OrderId)
        ensures
            *final(self) == *old(self),
    {
    }
}

/// What a run of fills traded, and when, leaving out those whose notional
/// does not fit and which are not charged.
pub open spec fn traded_by(fills: Seq<FeeContext>) -> Seq<(i64, i64)>
    decreases fills.len(),
{
    if fills.len() == 0 {
        Seq::empty()
    } else {
        let fill = fills.last();
        let rest = traded_by(fills.drop_last());
        match absolute(value_of(fill.price.0 as int, fill.quantity.0 as int)) {
            Err(_) => rest,
            Ok(gross) => rest.push((fill.ts.0, gross.0)),
        }
    }
}

proof fn since_drops_more(traded: Seq<(i64, i64)>, earlier: int, later: int)
    requires
        earlier <= later,
    ensures
        since(since(traded, earlier), later) == since(traded, later),
    decreases traded.len(),
{
    if traded.len() > 0 && traded[0].0 < earlier {
        since_drops_more(traded.drop_first(), earlier, later);
    }
}

proof fn since_and_one_more(a: Seq<(i64, i64)>, b: Seq<(i64, i64)>, x: (i64, i64), cutoff: int)
    requires
        since(a, cutoff) == since(b, cutoff),
    ensures
        since(a.push(x), cutoff) == since(b.push(x), cutoff),
{
    since_of_pushed(a, x, cutoff);
    since_of_pushed(b, x, cutoff);
}

proof fn since_of_pushed(a: Seq<(i64, i64)>, x: (i64, i64), cutoff: int)
    ensures
        since(a.push(x), cutoff) == (if since(a, cutoff).len() == 0 && x.0 < cutoff {
            Seq::empty()
        } else {
            since(a, cutoff).push(x)
        }),
    decreases a.len(),
{
    if a.len() > 0 && a[0].0 < cutoff {
        since_of_pushed(a.drop_first(), x, cutoff);
        assert(a.push(x).drop_first() =~= a.drop_first().push(x));
    } else if a.len() == 0 {
        assert(a.push(x).drop_first() =~= Seq::<(i64, i64)>::empty());
        assert(since(a, cutoff) =~= Seq::<(i64, i64)>::empty());
        assert(a.push(x) =~= since(a, cutoff).push(x));
        if x.0 < cutoff {
            assert(since(a.push(x), cutoff) == since(Seq::<(i64, i64)>::empty(), cutoff));
        }
    }
}

proof fn history_is_what_was_traded(
    models: Seq<TieredFees>,
    fills: Seq<FeeContext>,
    cutoff: int,
)
    requires
        models.len() == fills.len() + 1,
        models[0].history() == Seq::<(i64, i64)>::empty(),
        forall|i: int|
            0 <= i < fills.len() ==> models[i].charged(#[trigger] fills[i], &models[i + 1]),
        forall|i: int|
            0 <= i < fills.len() ==> saturated(
                (#[trigger] fills[i]).ts.0 - models[0].window(),
            ) <= cutoff,
    ensures
        since(models.last().history(), cutoff) == since(traded_by(fills), cutoff),
        models.last().window() == models[0].window(),
        models.last().schedule() == models[0].schedule(),
    decreases fills.len(),
{
    if fills.len() > 0 {
        let n = fills.len() - 1;
        let earlier = fills.drop_last();
        let before = models.drop_last();
        assert forall|i: int| 0 <= i < earlier.len() implies before[i].charged(
            #[trigger] earlier[i],
            &before[i + 1],
        ) && saturated(earlier[i].ts.0 - before[0].window()) <= cutoff by {
            assert(earlier[i] == fills[i]);
        }
        history_is_what_was_traded(before, earlier, cutoff);
        let fill = fills[n];
        assert(models[n].charged(fill, &models[n + 1]));
        let own = saturated(fill.ts.0 - models[0].window());
        since_drops_more(models[n].history(), own, cutoff);
        match absolute(value_of(fill.price.0 as int, fill.quantity.0 as int)) {
            Err(_) => {},
            Ok(gross) => {
                since_and_one_more(
                    since(models[n].history(), own),
                    traded_by(earlier),
                    (fill.ts.0, gross.0),
                    cutoff,
                );
            },
        }
    }
}

proof fn since_keeps_the_window(traded: Seq<(i64, i64)>, cutoff: int)
    requires
        forall|i: int, j: int|
            #![trigger traded[i], traded[j]]
            0 <= i < j < traded.len() ==> traded[i].0 <= traded[j].0,
    ensures
        since(traded, cutoff) == traded.filter(|t: (i64, i64)| t.0 >= cutoff),
    decreases traded.len(),
{
    let keep = |t: (i64, i64)| t.0 >= cutoff;
    reveal(Seq::filter);
    if traded.len() > 0 {
        let head = traded.drop_last();
        let last = traded.last();
        assert forall|i: int, j: int|
            #![trigger head[i], head[j]]
            0 <= i < j < head.len() implies head[i].0 <= head[j].0 by {
            assert(head[i] == traded[i] && head[j] == traded[j]);
        }
        since_keeps_the_window(head, cutoff);
        assert(head.push(last) =~= traded);
        since_of_pushed(head, last, cutoff);
        if last.0 < cutoff {
            since_empties(head, cutoff, last.0 as int);
        }
    }
}

proof fn since_empties(traded: Seq<(i64, i64)>, cutoff: int, most: int)
    requires
        most < cutoff,
        forall|i: int| 0 <= i < traded.len() ==> (#[trigger] traded[i]).0 <= most,
    ensures
        since(traded, cutoff).len() == 0,
    decreases traded.len(),
{
    if traded.len() > 0 {
        assert(traded[0].0 <= most);
        since_empties(traded.drop_first(), cutoff, most);
    }
}

proof fn traded_in_time(fills: Seq<FeeContext>)
    requires
        forall|i: int, j: int|
            #![trigger fills[i], fills[j]]
            0 <= i < j < fills.len() ==> fills[i].ts.0 <= fills[j].ts.0,
    ensures
        forall|i: int, j: int|
            #![trigger traded_by(fills)[i], traded_by(fills)[j]]
            0 <= i < j < traded_by(fills).len() ==> traded_by(fills)[i].0 <= traded_by(fills)[j].0,
        forall|i: int|
            0 <= i < traded_by(fills).len() ==> fills.len() > 0 && (#[trigger] traded_by(
                fills,
            )[i]).0 <= fills.last().ts.0,
    decreases fills.len(),
{
    if fills.len() > 0 {
        let head = fills.drop_last();
        assert forall|i: int, j: int|
            #![trigger head[i], head[j]]
            0 <= i < j < head.len() implies head[i].ts.0 <= head[j].ts.0 by {
            assert(head[i] == fills[i] && head[j] == fills[j]);
        }
        traded_in_time(head);
        if head.len() > 0 {
            assert(fills[head.len() - 1].ts.0 <= fills[head.len() as int].ts.0);
        }
        let all = traded_by(fills);
        let rest = traded_by(head);
        assert forall|i: int| 0 <= i < all.len() implies (#[trigger] all[i]).0
            <= fills.last().ts.0 by {
            if i < rest.len() {
                assert(all[i] == rest[i]);
            }
        }
        assert forall|i: int, j: int|
            #![trigger all[i], all[j]]
            0 <= i < j < all.len() implies all[i].0 <= all[j].0 by {
            assert(all[i] == rest[i]);
            if j < rest.len() {
                assert(all[j] == rest[j]);
            }
        }
    }
}

/// A fill is priced at the tier reached by what was traded before it within
/// the window that ends with it, itself left out: whatever has been charged
/// so far, in time order, by a schedule that had charged nothing.
pub proof fn tiers_follow_the_trailing_volume(
    models: Seq<TieredFees>,
    fills: Seq<FeeContext>,
    next: FeeContext,
)
    requires
        models.len() == fills.len() + 1,
        models[0].history() == Seq::<(i64, i64)>::empty(),
        forall|i: int|
            0 <= i < fills.len() ==> models[i].charged(#[trigger] fills[i], &models[i + 1]),
        forall|i: int, j: int|
            #![trigger fills[i], fills[j]]
            0 <= i < j < fills.len() ==> fills[i].ts.0 <= fills[j].ts.0,
        fills.len() > 0 ==> fills.last().ts.0 <= next.ts.0,
    ensures
        ({
            let cutoff = saturated(next.ts.0 - models[0].window());
            let volume = rolling_volume(
                traded_by(fills).filter(|t: (i64, i64)| t.0 >= cutoff),
            );
            let tier = models[0].tier_at(volume);
            models.last().quote(next) == match absolute(
                value_of(next.price.0 as int, next.quantity.0 as int),
            ) {
                Err(e) => Err(e),
                Ok(gross) => value_of(
                    (if next.is_taker {
                        tier.taker
                    } else {
                        tier.maker
                    }).0 as int,
                    gross.0 as int,
                ),
            }
        }),
{
    let cutoff = saturated(next.ts.0 - models[0].window());
    assert forall|i: int| 0 <= i < fills.len() implies saturated(
        (#[trigger] fills[i]).ts.0 - models[0].window(),
    ) <= cutoff by {
        if i < fills.len() - 1 {
            assert(fills[i].ts.0 <= fills[fills.len() - 1].ts.0);
        }
    }
    history_is_what_was_traded(models, fills, cutoff);
    traded_in_time(fills);
    since_keeps_the_window(traded_by(fills), cutoff);
}

/// A tiered fee is a rate of the size of the notional, whichever way the
/// fill goes, to within half a raw unit in each of the two products: the
/// taker's rate of the tier for a taker and the maker's for a maker.
pub proof fn a_tiered_fee_is_a_share_of_the_notional(model: TieredFees, ctx: FeeContext)
    ensures
        ({
            let cutoff = ctx.ts.0 - model.window();
            let tier = model.tier_at(
                rolling_volume(since(model.history(), if cutoff < i64::MIN {
                    i64::MIN as int
                } else if cutoff > i64::MAX {
                    i64::MAX as int
                } else {
                    cutoff
                })),
            );
            let rate = if ctx.is_taker {
                tier.taker.0 as int
            } else {
                tier.maker.0 as int
            };
            let notional = ctx.price.0 * ctx.quantity.0;
            let size = if notional < 0 {
                -notional
            } else {
                notional
            };
            let slack = 1_000_000_000 * (if rate < 0 {
                -rate
            } else {
                rate
            }) + 1_000_000_000_000_000_000;
            &&& model.quote(ctx) matches Ok(fee) ==> -slack <= 2 * (fee.0
                * 1_000_000_000_000_000_000 - rate * size) <= slack
            &&& size <= 0x4000_0000_0000_0000 * 1_000_000_000 && -1_000_000_000 <= rate
                <= 1_000_000_000 ==> model.quote(ctx) is Ok
        }),
{
    let cutoff = saturated(ctx.ts.0 - model.window());
    let tier = model.tier_at(rolling_volume(since(model.history(), cutoff)));
    let rate = if ctx.is_taker {
        tier.taker.0 as int
    } else {
        tier.maker.0 as int
    };
    let exact = ctx.price.0 * ctx.quantity.0;
    let size = magnitude(exact);
    let gross = magnitude(notional_of(ctx.price.0 as int, ctx.quantity.0 as int));
    a_value_is_the_nearest(ctx.price.0 as int, ctx.quantity.0 as int);
    a_value_is_the_nearest(rate, gross);
    if model.quote(ctx) is Ok {
        let fee = model.quote(ctx)->Ok_0.0 as int;
        a_share_is_near(rate, gross, size, fee);
    }
    if size <= 0x4000_0000_0000_0000 * 1_000_000_000 && -1_000_000_000 <= rate <= 1_000_000_000 {
        assert(-0x4000_0000_0000_0000 * 1_000_000_000 <= rate * gross <= 0x4000_0000_0000_0000
            * 1_000_000_000) by (nonlinear_arith)
            requires
                0 <= gross <= 0x4000_0000_0000_0000,
                -1_000_000_000 <= rate <= 1_000_000_000,
        ;
    }
}

/// An account is in the highest tier it has reached: of the tiers it was
/// given, one whose volume it has traded at least, and no tier between that
/// volume and its own. A volume that a tier starts at is in that tier.
pub proof fn an_account_is_in_the_highest_tier_reached(
    tiers: Seq<FeeTier>,
    volume: Money,
    tier: FeeTier,
)
    requires
        starts_at_zero(tiers),
        !volumes_clash(tiers),
        volume.0 >= 0,
        is_tier_for(tiers_by_volume(tiers), volume, tier),
    ensures
        tiers.contains(tier),
        tier.volume_from.0 <= volume.0,
        forall|i: int|
            0 <= i < tiers.len() && (#[trigger] tiers[i]).volume_from.0 <= volume.0
                ==> tiers[i].volume_from.0 <= tier.volume_from.0,
        forall|i: int|
            0 <= i < tiers.len() && (#[trigger] tiers[i]).volume_from == volume ==> tiers[i]
                == tier,
{
    listed_tiers_are_scheduled(tiers);
    let schedule = tiers_by_volume(tiers);
    let from = choose|from: i64| #[trigger]
        schedule.dom().contains(from) && schedule[from] == tier && from <= volume.0 && forall|
            other: i64,
        | #[trigger]
            schedule.dom().contains(other) && other <= volume.0 ==> other <= from;
    assert(schedule.dom().contains(from));
    let k = choose|k: int| 0 <= k < tiers.len() && #[trigger] tiers[k] == schedule[from];
    assert(tiers[k] == tier);
    assert forall|i: int| 0 <= i < tiers.len() && (#[trigger] tiers[i]).volume_from == volume
        implies tiers[i] == tier by {
        assert(schedule.dom().contains(tiers[i].volume_from.0));
        if i < k {
            assert(tiers[i].volume_from != tiers[k].volume_from);
        } else if k < i {
            assert(tiers[k].volume_from != tiers[i].volume_from);
        }
    }
}

proof fn listed_tiers_are_scheduled(tiers: Seq<FeeTier>)
    ensures
        forall|i: int|
            0 <= i < tiers.len() ==> tiers_by_volume(tiers).dom().contains(
                (#[trigger] tiers[i]).volume_from.0,
            ),
        forall|v: i64| #[trigger]
            tiers_by_volume(tiers).dom().contains(v) ==> tiers_by_volume(tiers)[v].volume_from.0
                == v && exists|k: int|
                0 <= k < tiers.len() && #[trigger] tiers[k] == tiers_by_volume(tiers)[v],
    decreases tiers.len(),
{
    if tiers.len() > 0 {
        let head = tiers.drop_last();
        listed_tiers_are_scheduled(head);
        let (before, all) = (tiers_by_volume(head), tiers_by_volume(tiers));
        assert forall|i: int| 0 <= i < tiers.len() implies all.dom().contains(
            (#[trigger] tiers[i]).volume_from.0,
        ) by {
            if i < head.len() {
                assert(head[i] == tiers[i]);
            }
        }
        assert forall|v: i64| #[trigger] all.dom().contains(v) implies all[v].volume_from.0 == v
            && exists|k: int| 0 <= k < tiers.len() && #[trigger] tiers[k] == all[v] by {
            if v == tiers.last().volume_from.0 {
                assert(tiers[tiers.len() - 1] == all[v]);
            } else {
                assert(before.dom().contains(v));
                let k = choose|k: int| 0 <= k < head.len() && #[trigger] head[k] == before[v];
                assert(tiers[k] == all[v]);
            }
        }
    }
}

/// Rolling volume is what was traded added up: nothing where nothing was
/// traded, and each trade more by its amount, up to the largest amount there
/// is.
pub proof fn rolling_volume_adds_up(traded: Seq<(i64, i64)>, at: i64, amount: i64)
    requires
        amount >= 0,
        forall|i: int| 0 <= i < traded.len() ==> (#[trigger] traded[i]).1 >= 0,
    ensures
        traded.len() == 0 ==> rolling_volume(traded).0 == 0,
        rolling_volume(traded).0 + amount <= i64::MAX ==> rolling_volume(
            traded.push((at, amount)),
        ).0 == rolling_volume(traded).0 + amount,
        rolling_volume(traded).0 + amount > i64::MAX ==> rolling_volume(
            traded.push((at, amount)),
        ).0 == i64::MAX,
{
    traded_sum_is_not_negative(traded);
    assert(traded.push((at, amount)).drop_last() =~= traded);
}

proof fn traded_sum_is_not_negative(traded: Seq<(i64, i64)>)
    requires
        forall|i: int| 0 <= i < traded.len() ==> (#[trigger] traded[i]).1 >= 0,
    ensures
        traded_sum(traded) >= 0,
    decreases traded.len(),
{
    if traded.len() > 0 {
        assert(traded[traded.len() - 1].1 >= 0);
        assert forall|i: int| 0 <= i < traded.drop_last().len() implies (
        #[trigger] traded.drop_last()[i]).1 >= 0 by {
            assert(traded.drop_last()[i] == traded[i]);
        }
        traded_sum_is_not_negative(traded.drop_last());
    }
}

/// How long the venue takes to hear about an order.
pub trait LatencyModel {
    spec fn insert_delay(&self) -> i64;

    spec fn cancel_delay(&self) -> i64;

    fn insert_nanos(&self) -> (r: i64)
        ensures
            r == self.insert_delay(),
    ;

    fn cancel_nanos(&self) -> (r: i64)
        ensures
            r == self.cancel_delay(),
    ;
}

/// Instant. Unrealistic for any real venue, and the default only because a
/// test that wants to reason about ordering should not also have to reason
/// about latency.
#[derive(Clone, Copy, Debug, PartialEq, Eq, Structural)]
pub struct NoLatency;

impl LatencyModel for NoLatency {
    open spec fn insert_delay(&self) -> i64 {
        0
    }

    open spec fn cancel_delay(&self) -> i64 {
        0
    }

    fn insert_nanos(&self) -> (r: i64) {
        0
    }

    fn cancel_nanos(&self) -> (r: i64) {
        0
    }
}

/// A fixed delay each way.
#[derive(Clone, Copy, Debug, PartialEq, Eq, Structural)]
pub struct ConstantLatency {
    pub insert: i64,
    pub cancel: i64,
}

impl ConstantLatency {
    pub fn millis(insert: i64, cancel: i64) -> (r: Self)
        requires
            fits(insert * 1_000_000),
            fits(cancel * 1_000_000),
        ensures
            r.insert == insert * 1_000_000,
            r.cancel == cancel * 1_000_000,
    {
        ConstantLatency { insert: insert * 1_000_000, cancel: cancel * 1_000_000 }
    }
}

impl LatencyModel for ConstantLatency {
    open spec fn insert_delay(&self) -> i64 {
        self.insert
    }

    open spec fn cancel_delay(&self) -> i64 {
        self.cancel
    }

    fn insert_nanos(&self) -> (r: i64) {
        self.insert
    }

    fn cancel_nanos(&self) -> (r: i64) {
        self.cancel
    }
}

/// How an order meets the book.
///
/// The escape hatch is [`FillModel::book_for_fill`]: a model may return a
/// *synthetic* book, and the matching engine then runs against it exactly
/// as it would against the real one. That single hook covers slippage,
/// bar-derived pseudo-quotes and synthetic depth without any of them
/// needing their own path through matching.
pub trait FillModel {
    /// What the model may put in place of a book.
    spec fn reshapes(&self, book: OrderBook, order: Order, out: Option<OrderBook>) -> bool;

    spec fn keeps_prices(&self) -> bool;

    spec fn fills_at_touch(&self) -> bool;

    spec fn tracks_queue(&self) -> bool;

    spec fn counts_unknown_aggressor(&self) -> bool;

    /// The book to match against, or `None` to use the venue's own.
    fn book_for_fill(&self, book: &OrderBook, order: &Order) -> (out: Option<OrderBook>)
        requires
            book.wf(),
        ensures
            self.reshapes(*book, *order, out),
            out matches Some(b) ==> b.wf(),
    ;

    /// Whether matching preserves the recorded book's prices.
    ///
    /// This lets the engine reject non-crossing resting orders from the
    /// top of book without invoking the model.
    fn preserves_book_prices(&self) -> (r: bool)
        ensures
            r == self.keeps_prices(),
    ;

    /// Whether a resting order at the touch fills when a trade prints
    /// through its price. Conservative by default: a print at your price
    /// does not prove your order was ahead in the queue.
    fn passive_fills_on_trade_at_price(&self) -> (r: bool)
        ensures
            r == self.fills_at_touch(),
    ;

    /// Whether the engine should track queue position for resting orders.
    ///
    /// With this on, an order accepted at a price is placed *behind* the
    /// size already displayed there, and only fills once trades have
    /// consumed that much. It is the honest L2 approximation: a level 2
    /// feed shows how much is at a price but not who is where in the queue,
    /// so assuming you are last is the conservative reading, and assuming
    /// you are first is how backtests invent maker fills.
    fn uses_queue_position(&self) -> (r: bool)
        ensures
            r == self.tracks_queue(),
    ;

    /// Whether a trade with no stated aggressor may fill a passive order.
    ///
    /// Many venues publish prints without a side. Treating those as filling
    /// both sides prevents queues stalling forever, but it overstates fill
    /// probability -- every print counts twice.
    fn fills_on_unknown_aggressor(&self) -> (r: bool)
        ensures
            r == self.counts_unknown_aggressor(),
    ;
}

/// Match against the book as recorded, with no embellishment.
#[derive(Clone, Copy, Debug, PartialEq, Eq, Structural)]
pub struct BookFills;

impl FillModel for BookFills {
    open spec fn reshapes(&self, book: OrderBook, order: Order, out: Option<OrderBook>) -> bool {
        out is None
    }

    open spec fn keeps_prices(&self) -> bool {
        true
    }

    open spec fn fills_at_touch(&self) -> bool {
        false
    }

    open spec fn tracks_queue(&self) -> bool {
        false
    }

    open spec fn counts_unknown_aggressor(&self) -> bool {
        false
    }

    fn book_for_fill(&self, book: &OrderBook, order: &Order) -> (out: Option<OrderBook>) {
        None
    }

    fn preserves_book_prices(&self) -> (r: bool) {
        true
    }

    fn passive_fills_on_trade_at_price(&self) -> (r: bool) {
        false
    }

    fn uses_queue_position(&self) -> (r: bool) {
        false
    }

    fn fills_on_unknown_aggressor(&self) -> (r: bool) {
        false
    }
}

/// Move the book adverse to the taker by a fixed number of ticks.
///
/// Slippage is applied by *rewriting the book*, not by adjusting the fill
/// price afterwards, so the size available at each level stays consistent
/// with the price the taker gets.
#[derive(Clone, Copy, Debug, PartialEq, Eq, Structural)]
pub struct TickSlippage {
    pub ticks: i64,
    pub tick_size: Price,
}

/// Levels with their prices moved.
pub open spec fn shifted(levels: Seq<(Price, Qty)>, shift: int) -> Seq<(Price, Qty)> {
    levels.map_values(|l: (Price, Qty)| (Price(saturated((l.0).0 + shift) as i64), l.1))
}

impl TickSlippage {
    pub fn new(ticks: i64, tick_size: Price) -> (r: Self)
        ensures
            r == (TickSlippage { ticks, tick_size }),
    {
        TickSlippage { ticks, tick_size }
    }

    /// How far the book is moved.
    pub open spec fn distance(&self) -> int {
        saturated(self.ticks * self.tick_size.0)
    }
}

/// Move the prices of levels, stopping at the ends of the range.
fn shift_levels(levels: Vec<(Price, Qty)>, shift: i64) -> (out: Vec<(Price, Qty)>)
    ensures
        out@ == shifted(levels@, shift as int),
{
    let mut out: Vec<(Price, Qty)> = Vec::new();
    let n: usize = levels.len();
    let mut i: usize = 0;
    while i < n
        invariant
            n == levels@.len(),
            i <= n,
            out@ == shifted(levels@.take(i as int), shift as int),
        decreases n - i,
    {
        let (p, q) = levels[i];
        out.push((Price(saturating_sum(p.0, shift)), q));
        assert(out@ =~= shifted(levels@.take(i + 1), shift as int));
        i += 1;
    }
    assert(levels@.take(n as int) =~= levels@);
    out
}

impl FillModel for TickSlippage {
    open spec fn reshapes(&self, book: OrderBook, order: Order, out: Option<OrderBook>) -> bool {
        if self.ticks == 0 {
            out is None
        } else {
            let (bid_shift, ask_shift) = match order.side {
                Side::Buy => (0int, self.distance()),
                Side::Sell => (saturated(-self.distance()), 0int),
            };
            out matches Some(b) && {
                &&& b.wf()
                &&& b.side(Side::Buy) == snapshot_levels(shifted(book.ranked(Side::Buy), bid_shift))
                &&& b.side(Side::Sell) == snapshot_levels(
                    shifted(book.ranked(Side::Sell), ask_shift),
                )
                &&& b.state() == Some(BookStatus::Fresh)
                &&& b.updated_at() == Some(
                    match book.updated_at() {
                        Some(ts) => ts,
                        None => UnixNanos(0),
                    },
                )
            }
        }
    }

    open spec fn keeps_prices(&self) -> bool {
        false
    }

    open spec fn fills_at_touch(&self) -> bool {
        false
    }

    open spec fn tracks_queue(&self) -> bool {
        false
    }

    open spec fn counts_unknown_aggressor(&self) -> bool {
        false
    }

    fn book_for_fill(&self, book: &OrderBook, order: &Order) -> (out: Option<OrderBook>) {
        if self.ticks == 0 {
            return None;
        }
        let product: i128 = crate::types::wide_product(self.ticks, self.tick_size.0);
        let shift: i64 = if product > i64::MAX as i128 {
            i64::MAX
        } else if product < i64::MIN as i128 {
            i64::MIN
        } else {
            product as i64
        };
        // A buyer pays up; a seller receives less.
        let (bid_shift, ask_shift): (i64, i64) = match order.side {
            Side::Buy => (0, shift),
            Side::Sell => (saturating_difference(0, shift), 0),
        };
        let bids = shift_levels(book.levels(Side::Buy), bid_shift);
        let asks = shift_levels(book.levels(Side::Sell), ask_shift);
        let ts = match book.last_update() {
            Some(ts) => ts,
            None => UnixNanos(0),
        };
        let mut synthetic = OrderBook::new();
        synthetic.apply_snapshot(bids.as_slice(), asks.as_slice(), ts).ok()?;
        Some(synthetic)
    }

    fn preserves_book_prices(&self) -> (r: bool) {
        false
    }

    fn passive_fills_on_trade_at_price(&self) -> (r: bool) {
        false
    }

    fn uses_queue_position(&self) -> (r: bool) {
        false
    }

    fn fills_on_unknown_aggressor(&self) -> (r: bool) {
        false
    }
}

/// Match passively, respecting queue position.
///
/// An order joining a price level starts behind everything already
/// displayed there and advances only as trades consume the level. Nothing
/// about an L2 feed says where in the queue an order actually sits, so this
/// takes the pessimistic reading; `optimistic()` takes the other one.
#[derive(Clone, Copy, Debug, PartialEq, Eq, Structural)]
pub struct QueuePositionFills {
    /// Let prints with no stated aggressor consume the queue.
    pub fill_on_unknown_aggressor: bool,
}

impl QueuePositionFills {
    pub fn new() -> (r: Self)
        ensures
            r == (QueuePositionFills { fill_on_unknown_aggressor: false }),
    {
        QueuePositionFills { fill_on_unknown_aggressor: false }
    }

    /// Also consume the queue on prints that name no aggressor.
    pub fn optimistic() -> (r: Self)
        ensures
            r == (QueuePositionFills { fill_on_unknown_aggressor: true }),
    {
        QueuePositionFills { fill_on_unknown_aggressor: true }
    }
}

impl FillModel for QueuePositionFills {
    open spec fn reshapes(&self, book: OrderBook, order: Order, out: Option<OrderBook>) -> bool {
        out is None
    }

    open spec fn keeps_prices(&self) -> bool {
        true
    }

    open spec fn fills_at_touch(&self) -> bool {
        false
    }

    open spec fn tracks_queue(&self) -> bool {
        true
    }

    open spec fn counts_unknown_aggressor(&self) -> bool {
        self.fill_on_unknown_aggressor
    }

    fn book_for_fill(&self, book: &OrderBook, order: &Order) -> (out: Option<OrderBook>) {
        None
    }

    fn preserves_book_prices(&self) -> (r: bool) {
        true
    }

    fn passive_fills_on_trade_at_price(&self) -> (r: bool) {
        false
    }

    fn uses_queue_position(&self) -> (r: bool) {
        true
    }

    fn fills_on_unknown_aggressor(&self) -> (r: bool) {
        self.fill_on_unknown_aggressor
    }
}

/// A periodic venue process: funding, fee waivers, liquidation checks.
///
/// Returns cash adjustments to apply to the account.
pub trait VenueModule {
    fn name(&self) -> &str;

    /// Interval between runs, in nanoseconds.
    fn interval_nanos(&self) -> i64;

    fn on_interval(&mut self, ts: UnixNanos) -> Result<Money, BacktestError>;
}

/// Slippage never helps a taker and never touches the other side. Whatever a
/// buyer's book shows for sale it shows dearer by the slippage, and whatever
/// a seller's book shows bid it shows cheaper by it, with the sizes as they
/// were, as far as prices can move.
pub proof fn slippage_moves_prices_against_the_taker(
    model: TickSlippage,
    levels: Seq<(Price, Qty)>,
    i: int,
)
    requires
        0 <= i < levels.len(),
        i64::MIN < model.ticks * model.tick_size.0 <= i64::MAX,
        i64::MIN <= levels[i].0.0 + model.ticks * model.tick_size.0 <= i64::MAX,
        i64::MIN <= levels[i].0.0 - model.ticks * model.tick_size.0 <= i64::MAX,
    ensures
        ({
            let dearer = shifted(levels, model.distance());
            let cheaper = shifted(levels, saturated(-model.distance()));
            &&& dearer.len() == levels.len() && cheaper.len() == levels.len()
            &&& dearer[i].0.0 - levels[i].0.0 == model.ticks * model.tick_size.0
            &&& levels[i].0.0 - cheaper[i].0.0 == model.ticks * model.tick_size.0
            &&& dearer[i].1 == levels[i].1 && cheaper[i].1 == levels[i].1
        }),
{
}

/// The book slippage leaves a taker: the side taken from moved against the
/// taker, the taker's own side as recorded, fresh and as of the last update.
/// Without slippage the recorded book is used.
pub proof fn slippage_moves_one_side(
    model: TickSlippage,
    book: OrderBook,
    order: Order,
    out: Option<OrderBook>,
)
    requires
        model.reshapes(book, order, out),
    ensures
        model.ticks == 0 <==> out is None,
        out matches Some(moved) ==> {
            let shift = model.distance();
            let back = saturated(-shift);
            &&& moved.state() == Some(BookStatus::Fresh)
            &&& order.side is Buy ==> {
                &&& moved.side(Side::Buy) == snapshot_levels(shifted(book.ranked(Side::Buy), 0))
                &&& moved.side(Side::Sell) == snapshot_levels(
                    shifted(book.ranked(Side::Sell), shift),
                )
            }
            &&& order.side is Sell ==> {
                &&& moved.side(Side::Buy) == snapshot_levels(
                    shifted(book.ranked(Side::Buy), back),
                )
                &&& moved.side(Side::Sell) == snapshot_levels(shifted(book.ranked(Side::Sell), 0))
            }
        },
{
}

/// A venue without fees charges nothing, whoever trades.
pub proof fn no_fees_are_charged(ctx: FeeContext)
    ensures
        NoFees.quote(ctx) == Ok::<Money, BacktestError>(Money(0)),
{
}

/// Each way has its own delay, and a venue without latency has none.
pub proof fn each_way_has_its_own_delay(latency: ConstantLatency)
    ensures
        latency.insert_delay() == latency.insert,
        latency.cancel_delay() == latency.cancel,
        NoLatency.insert_delay() == 0,
        NoLatency.cancel_delay() == 0,
{
}

/// What each fill model assumes. None fills an order because something traded
/// at its price; only queue positions are tracked where that is asked for,
/// and a print that names no aggressor counts only where that is asked for;
/// only slippage moves prices.
pub proof fn what_fill_models_assume(slippage: TickSlippage, queued: QueuePositionFills)
    ensures
        !BookFills.fills_at_touch() && !slippage.fills_at_touch() && !queued.fills_at_touch(),
        !BookFills.tracks_queue() && !slippage.tracks_queue() && queued.tracks_queue(),
        !BookFills.counts_unknown_aggressor() && !slippage.counts_unknown_aggressor(),
        queued.counts_unknown_aggressor() == queued.fill_on_unknown_aggressor,
        BookFills.keeps_prices() && !slippage.keeps_prices() && queued.keeps_prices(),
{
}

} // verus!
