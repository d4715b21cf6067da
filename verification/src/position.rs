//! Positions as a fold over fills, and the portfolio as a projection.
//!
//! A [`Position`] holds no authoritative state of its own: it is the result
//! of applying every fill in order, and nothing else. That means position
//! state can be *rebuilt* from the fills a run stores, so a stored run is
//! auditable rather than merely reported.
//!
//! [`Portfolio`] is the same idea one level up: a pure function of the
//! positions and the latest marks.

use vstd::prelude::*;
use vstd::string::*;

use crate::corporate::{
    a_split_multiplies_shares_and_divides_prices, split_price, split_quantity, CorporateAction,
};
use crate::error::{says, BacktestError};
use crate::instrument::{InstrumentId, OutcomeId};
use crate::order::Fill;
use crate::ordered::{entries_map_contains, sorted_one_way, OrderedKey, SortedMap};
use crate::types::{
    a_quotient_is_near, a_quotient_lies_between, div_trunc, divide_trunc, fits, magnitude, notional,
    notional_is_nearest, notional_is_odd, notional_of, Money, Price, Qty, Side, SCALE,
};

verus! {

/// The key a position is held under: an instrument *and* an outcome.
pub type PositionKey = (InstrumentId, OutcomeId);

/// A position key as text and number.
pub type KeyView = (Seq<char>, u16);

/// A netted position in one instrument outcome.
#[derive(PartialEq, Eq, Debug)]
pub struct Position {
    pub instrument: InstrumentId,
    pub outcome: OutcomeId,
    /// Signed: positive is long, negative is short.
    pub quantity: Qty,
    /// Average price of the open quantity. Meaningless when flat, and set
    /// to zero there rather than left stale.
    pub average_price: Price,
    pub realized_pnl: Money,
    pub commissions: Money,
    pub fill_count: u64,
}

impl Clone for Position {
    fn clone(&self) -> (r: Self)
        ensures
            r == *self,
    {
        Position {
            instrument: self.instrument.clone(),
            outcome: self.outcome,
            quantity: self.quantity,
            average_price: self.average_price,
            realized_pnl: self.realized_pnl,
            commissions: self.commissions,
            fill_count: self.fill_count,
        }
    }
}

/// A position that nothing has happened to.
pub open spec fn untouched(instrument: InstrumentId, outcome: OutcomeId) -> Position {
    Position {
        instrument,
        outcome,
        quantity: Qty(0),
        average_price: Price(0),
        realized_pnl: Money(0),
        commissions: Money(0),
        fill_count: 0,
    }
}

/// What a fill adds to a position: its quantity, negative for a sale.
pub open spec fn signed_quantity(fill: Fill) -> int {
    match fill.side {
        Side::Buy => fill.quantity.0 as int,
        Side::Sell => -fill.quantity.0,
    }
}

/// Whether a fill opens a position or adds to one, rather than reducing,
/// closing or reversing it.
pub open spec fn opens_or_adds(before: int, signed: int) -> bool {
    before == 0 || ((before > 0) == (signed > 0))
}

/// Profit per unit closed: what was got over what was paid for a long, the
/// other way round for a short.
pub open spec fn gain_per_unit(p: Position, price: Price) -> int {
    if p.quantity.0 > 0 {
        price.0 - p.average_price.0
    } else {
        p.average_price.0 - price.0
    }
}

/// How much of a position a fill against it closes.
pub open spec fn closed_quantity(before: int, signed: int) -> int {
    if magnitude(signed) <= magnitude(before) {
        magnitude(signed)
    } else {
        magnitude(before)
    }
}

/// What a fill realises, before its commission.
pub open spec fn realized_by(p: Position, fill: Fill) -> int {
    let before = p.quantity.0 as int;
    let signed = signed_quantity(fill);
    if opens_or_adds(before, signed) {
        0
    } else {
        notional_of(gain_per_unit(p, fill.price), closed_quantity(before, signed))
    }
}

/// The average price after a fill: the weighted average of the two legs when
/// adding, the old one when reducing, zero when flat, and the fill's own
/// price for the remainder of a reversal.
pub open spec fn average_after(p: Position, fill: Fill) -> int {
    let before = p.quantity.0 as int;
    let signed = signed_quantity(fill);
    let after = before + signed;
    if opens_or_adds(before, signed) {
        let total = magnitude(before) + magnitude(signed);
        if total == 0 {
            0
        } else {
            div_trunc(
                p.average_price.0 * magnitude(before) + fill.price.0 * magnitude(signed),
                total,
            )
        }
    } else if after == 0 {
        0
    } else if (after > 0) != (before > 0) {
        fill.price.0 as int
    } else {
        p.average_price.0 as int
    }
}

/// A position after a fill, or why it cannot be held.
pub open spec fn applied(p: Position, fill: Fill) -> Result<Position, BacktestError> {
    let before = p.quantity.0 as int;
    let signed = signed_quantity(fill);
    let gross = realized_by(p, fill);
    if !fits(signed) || !fits(before + signed) || p.fill_count == u64::MAX || (!opens_or_adds(
        before,
        signed,
    ) && !fits(gain_per_unit(p, fill.price))) {
        Err(BacktestError::Overflow { what: "Position::apply" })
    } else if !fits(gross) {
        Err(BacktestError::Overflow { what: "notional" })
    } else if !fits(p.realized_pnl.0 + gross) {
        Err(BacktestError::Overflow { what: "Money::add" })
    } else if !fits(p.commissions.0 + fill.commission.0) {
        Err(BacktestError::Overflow { what: "Money::add" })
    } else if !fits(p.realized_pnl.0 + gross - fill.commission.0) {
        Err(BacktestError::Overflow { what: "Money::sub" })
    } else {
        Ok(
            Position {
                quantity: Qty((before + signed) as i64),
                average_price: Price(average_after(p, fill) as i64),
                realized_pnl: Money((p.realized_pnl.0 + gross - fill.commission.0) as i64),
                commissions: Money((p.commissions.0 + fill.commission.0) as i64),
                fill_count: (p.fill_count + 1) as u64,
                ..p
            },
        )
    }
}

/// A position after a split, or why it cannot be held. A flat one is left
/// as it is.
pub open spec fn split_applied(p: Position, ratio: Price) -> Result<Position, BacktestError> {
    let q = split_quantity(ratio.0 as int, p.quantity.0 as int);
    let a = split_price(ratio.0 as int, p.average_price.0 as int);
    if p.quantity.0 == 0 {
        Ok(p)
    } else if !fits(q) {
        Err(BacktestError::Overflow { what: "split_position quantity" })
    } else if !fits(a) {
        Err(BacktestError::Overflow { what: "split_position price" })
    } else {
        Ok(Position { quantity: Qty(q as i64), average_price: Price(a as i64), ..p })
    }
}

/// Profit on the open quantity of a position at a mark.
pub open spec fn unrealized_of(p: Position, mark: Price) -> Result<Money, BacktestError> {
    let value = notional_of(mark.0 - p.average_price.0, p.quantity.0 as int);
    if p.quantity.0 == 0 {
        Ok(Money(0))
    } else if !fits(mark.0 - p.average_price.0) {
        Err(BacktestError::Overflow { what: "Position::unrealized_pnl" })
    } else if !fits(value) {
        Err(BacktestError::Overflow { what: "notional" })
    } else {
        Ok(Money(value as i64))
    }
}

/// Price times quantity as an amount of money.
pub open spec fn value_of(price: int, qty: int) -> Result<Money, BacktestError> {
    if fits(notional_of(price, qty)) {
        Ok(Money(notional_of(price, qty) as i64))
    } else {
        Err(BacktestError::Overflow { what: "notional" })
    }
}

proof fn average_fits(average: int, held: int, price: int, added: int)
    requires
        fits(average),
        fits(price),
        held >= 0,
        added >= 0,
        0 < held + added <= 0x8000_0000_0000_0000,
    ensures
        fits(div_trunc(average * held + price * added, held + added)),
        magnitude(average * held + price * added) <= 0x4000_0000_0000_0000_0000_0000_0000_0000,
        magnitude(average * held) <= 0x4000_0000_0000_0000_0000_0000_0000_0000,
        magnitude(price * added) <= 0x4000_0000_0000_0000_0000_0000_0000_0000,
{
    let total = held + added;
    let w = average * held + price * added;
    assert(-(held * 0x8000_0000_0000_0000) <= average * held <= held * 0x7fff_ffff_ffff_ffff)
        by (nonlinear_arith)
        requires
            held >= 0,
            -0x8000_0000_0000_0000 <= average <= 0x7fff_ffff_ffff_ffff,
    ;
    assert(-(added * 0x8000_0000_0000_0000) <= price * added <= added * 0x7fff_ffff_ffff_ffff)
        by (nonlinear_arith)
        requires
            added >= 0,
            -0x8000_0000_0000_0000 <= price <= 0x7fff_ffff_ffff_ffff,
    ;
    if w >= 0 {
        assert(0 <= w / total <= 0x7fff_ffff_ffff_ffff) by (nonlinear_arith)
            requires
                total > 0,
                0 <= w <= total * 0x7fff_ffff_ffff_ffff,
        ;
    } else {
        let m = -w;
        assert(0 <= m / total <= 0x8000_0000_0000_0000) by (nonlinear_arith)
            requires
                total > 0,
                0 <= m <= total * 0x8000_0000_0000_0000,
        ;
    }
}

/// The weighted average of two legs, rounded towards zero.
fn weighted_average(average: i64, held: i128, price: i64, added: i128) -> (r: i64)
    requires
        held >= 0,
        added >= 0,
        held + added <= 0x8000_0000_0000_0000,
    ensures
        r == (if held + added == 0 {
            0
        } else {
            div_trunc(average * held + price * added, held + added)
        }),
{
    if held + added == 0 {
        return 0;
    }
    proof {
        average_fits(average as int, held as int, price as int, added as int);
    }
    let weighted: i128 = (average as i128) * held + (price as i128) * added;
    divide_trunc(weighted, held + added) as i64
}

impl Position {
    pub fn new(instrument: InstrumentId, outcome: OutcomeId) -> (p: Self)
        ensures
            p == untouched(instrument, outcome),
    {
        Position {
            instrument,
            outcome,
            quantity: Qty(0),
            average_price: Price(0),
            realized_pnl: Money(0),
            commissions: Money(0),
            fill_count: 0,
        }
    }

    pub fn is_flat(&self) -> (r: bool)
        ensures
            r == (self.quantity.0 == 0),
    {
        self.quantity.is_zero()
    }

    pub fn is_long(&self) -> (r: bool)
        ensures
            r == (self.quantity.0 > 0),
    {
        self.quantity.is_positive()
    }

    pub fn is_short(&self) -> (r: bool)
        ensures
            r == (self.quantity.0 < 0),
    {
        self.quantity.is_negative()
    }

    /// Apply a fill.
    ///
    /// Three cases: adding to a position (weighted-average the price),
    /// reducing one (realize the difference), and reversing through zero
    /// (realize the whole old position, then open the remainder at the fill
    /// price). A fill that cannot be applied leaves the position as it was.
    pub fn apply(&mut self, fill: &Fill) -> (r: Result<(), BacktestError>)
        ensures
            match r {
                Ok(_) => applied(*old(self), *fill) == Ok::<Position, BacktestError>(*final(self)),
                Err(e) => applied(*old(self), *fill) == Err::<Position, BacktestError>(e)
                    && *final(self) == *old(self),
            },
    {
        let signed: i128 = match fill.side {
            Side::Buy => fill.quantity.0 as i128,
            Side::Sell => -(fill.quantity.0 as i128),
        };
        let before: i128 = self.quantity.0 as i128;
        let after: i128 = before + signed;
        let overflow = BacktestError::Overflow { what: "Position::apply" };
        if signed > i64::MAX as i128 || after < i64::MIN as i128 || after > i64::MAX as i128
            || self.fill_count == u64::MAX {
            return Err(overflow);
        }
        let held: i128 = if before < 0 {
            -before
        } else {
            before
        };
        let added: i128 = if signed < 0 {
            -signed
        } else {
            signed
        };
        let adding = before == 0 || ((before > 0) == (signed > 0));
        let mut gross = Money(0);
        let average: i64;
        if adding {
            average = weighted_average(self.average_price.0, held, fill.price.0, added);
        } else {
            let closing: i128 = if added <= held {
                added
            } else {
                held
            };
            // Long: gain is (exit - entry). Short: gain is (entry - exit).
            let per_unit: i128 = if before > 0 {
                fill.price.0 as i128 - self.average_price.0 as i128
            } else {
                self.average_price.0 as i128 - fill.price.0 as i128
            };
            if per_unit < i64::MIN as i128 || per_unit > i64::MAX as i128 {
                return Err(overflow);
            }
            gross = notional(Price(per_unit as i64), Qty(closing as i64))?;
            average = if after == 0 {
                0
            } else if (after > 0) != (before > 0) {
                // Reversed through zero: the remainder is a new position
                // opened at this fill's price, not at the old average.
                fill.price.0
            } else {
                self.average_price.0
            };
        }
        let realized = self.realized_pnl.checked_add(gross)?;
        let commissions = self.commissions.checked_add(fill.commission)?;
        let net = realized.checked_sub(fill.commission)?;
        self.quantity = Qty(after as i64);
        self.average_price = Price(average);
        self.realized_pnl = net;
        self.commissions = commissions;
        self.fill_count = self.fill_count + 1;
        Ok(())
    }

    /// Apply a share split to this position.
    ///
    /// Quantity scales up and basis scales down, leaving the position's
    /// value unchanged up to rounding. Realised profit is untouched: a split
    /// does not realise anything.
    pub fn apply_split(&mut self, ratio: Price) -> (r: Result<(), BacktestError>)
        ensures
            match r {
                Ok(_) => (old(self).quantity.0 == 0 || ratio.0 > 0) && split_applied(
                    *old(self),
                    ratio,
                ) == Ok::<Position, BacktestError>(*final(self)),
                Err(e) => *final(self) == *old(self) && old(self).quantity.0 != 0 && if ratio.0
                    <= 0 {
                    says(e, "split ratio must be positive"@)
                } else {
                    split_applied(*old(self), ratio) == Err::<Position, BacktestError>(e)
                },
            },
    {
        if self.is_flat() {
            return Ok(());
        }
        let (quantity, basis) = CorporateAction::split_position(
            ratio,
            self.quantity,
            self.average_price,
        )?;
        self.quantity = quantity;
        self.average_price = basis;
        Ok(())
    }

    /// Mark-to-market profit on the open quantity at `mark`.
    pub fn unrealized_pnl(&self, mark: Price) -> (r: Result<Money, BacktestError>)
        ensures
            r == unrealized_of(*self, mark),
    {
        if self.is_flat() {
            return Ok(Money(0));
        }
        let per_unit: i128 = mark.0 as i128 - self.average_price.0 as i128;
        if per_unit < i64::MIN as i128 || per_unit > i64::MAX as i128 {
            return Err(BacktestError::Overflow { what: "Position::unrealized_pnl" });
        }
        notional(Price(per_unit as i64), self.quantity)
    }

    /// Signed exposure at `mark`.
    pub fn exposure(&self, mark: Price) -> (r: Result<Money, BacktestError>)
        ensures
            r == value_of(mark.0 as int, self.quantity.0 as int),
    {
        notional(mark, self.quantity)
    }
}

/// A round trip at one price realises nothing but its commissions, and
/// leaves the position flat.
pub proof fn round_trip_at_one_price(
    instrument: InstrumentId,
    outcome: OutcomeId,
    entry: Fill,
    exit: Fill,
)
    requires
        entry.quantity.0 > 0,
        entry.quantity == exit.quantity,
        entry.side == exit.side.opposite(),
        entry.price == exit.price,
        applied(untouched(instrument, outcome), entry) is Ok,
        applied(applied(untouched(instrument, outcome), entry)->Ok_0, exit) is Ok,
    ensures
        ({
            let end = applied(applied(untouched(instrument, outcome), entry)->Ok_0, exit)->Ok_0;
            &&& end.quantity.0 == 0
            &&& end.average_price.0 == 0
            &&& end.realized_pnl.0 == -(entry.commission.0 + exit.commission.0)
            &&& end.commissions.0 == entry.commission.0 + exit.commission.0
        }),
{
    let flat = untouched(instrument, outcome);
    let held = applied(flat, entry)->Ok_0;
    let q = entry.quantity.0 as int;
    let p = entry.price.0 as int;
    assert(signed_quantity(entry) == q || signed_quantity(entry) == -q);
    assert(flat.average_price.0 * magnitude(0) == 0) by (nonlinear_arith)
        requires
            flat.average_price.0 == 0,
    ;
    assert(div_trunc(p * q, q) == p) by {
        if p * q >= 0 {
            assert(p >= 0) by (nonlinear_arith)
                requires
                    p * q >= 0,
                    q > 0,
            ;
            vstd::arithmetic::div_mod::lemma_div_multiples_vanish(p, q);
            assert(p * q == q * p) by (nonlinear_arith);
        } else {
            vstd::arithmetic::div_mod::lemma_div_multiples_vanish(-p, q);
            assert(-(p * q) == q * (-p)) by (nonlinear_arith);
        }
    }
    assert(held.average_price.0 == p);
    assert(gain_per_unit(held, exit.price) == 0);
    assert(notional_of(0, closed_quantity(held.quantity.0 as int, signed_quantity(exit))) == 0) by {
        assert(0 * closed_quantity(held.quantity.0 as int, signed_quantity(exit)) == 0)
            by (nonlinear_arith);
    }
}

/// A value is the product of a price and a quantity to within half a raw
/// unit, with the product's sign, and there is one wherever the product is
/// not too large to be held.
pub proof fn a_value_is_the_nearest(price: int, qty: int)
    ensures
        value_of(price, qty) matches Ok(v) ==> {
            &&& -SCALE <= 2 * (v.0 * SCALE - price * qty) <= SCALE
            &&& price * qty >= 0 ==> v.0 >= 0
            &&& price * qty <= 0 ==> v.0 <= 0
        },
        value_of(price, qty) is Ok <==> (2 * i64::MIN - 1) * SCALE < 2 * (price * qty) < (2
            * i64::MAX + 1) * SCALE,
{
}

/// The same quantity the other way round is worth the same with the sign
/// turned, and no quantity is worth nothing.
pub proof fn exposure_follows_direction(price: int, qty: int, value: Money, opposite: Money)
    requires
        value_of(price, qty) == Ok::<Money, BacktestError>(value),
        value_of(price, -qty) == Ok::<Money, BacktestError>(opposite),
    ensures
        opposite.0 == -value.0,
        qty == 0 ==> value.0 == 0,
{
    notional_is_odd(price, qty);
    assert(price * 0 == 0);
}

/// A fill moves a position by its quantity, up for a buy and down for a
/// sale, costs its commission, and leaves whose position it is alone.
pub proof fn a_fill_moves_a_position(p: Position, fill: Fill)
    requires
        applied(p, fill) is Ok,
    ensures
        ({
            let after = applied(p, fill)->Ok_0;
            &&& after.quantity.0 - p.quantity.0 == if fill.side == Side::Buy {
                fill.quantity.0 as int
            } else {
                -fill.quantity.0
            }
            &&& after.commissions.0 == p.commissions.0 + fill.commission.0
            &&& after.fill_count == p.fill_count + 1
            &&& after.instrument == p.instrument
            &&& after.outcome == p.outcome
        }),
{
}

/// Where the average price goes: reducing leaves it, closing clears it,
/// reversing starts again at the fill's price, opening starts at it, and
/// adding ends between the two.
pub proof fn where_the_average_goes(p: Position, fill: Fill)
    requires
        applied(p, fill) is Ok,
    ensures
        ({
            let after = applied(p, fill)->Ok_0;
            let (before, now) = (p.quantity.0, after.quantity.0);
            let (old_price, new_price) = (p.average_price.0, after.average_price.0);
            &&& now == 0 ==> new_price == 0
            &&& (0 < now < before || before < now < 0) ==> new_price == old_price
            &&& (before < 0 < now || now < 0 < before || (before == 0 && now != 0)) ==> new_price
                == fill.price.0
            &&& (0 < before < now || now < before < 0) ==> {
                &&& old_price <= fill.price.0 ==> old_price <= new_price <= fill.price.0
                &&& old_price >= fill.price.0 ==> old_price >= new_price >= fill.price.0
            }
        }),
{
    let after = applied(p, fill)->Ok_0;
    let (before, now) = (p.quantity.0 as int, after.quantity.0 as int);
    let signed = signed_quantity(fill);
    let (a, f) = (p.average_price.0 as int, fill.price.0 as int);
    if opens_or_adds(before, signed) && now != 0 {
        let (b, s) = (magnitude(before), magnitude(signed));
        let t = b + s;
        let w = a * b + f * s;
        let (low, high) = if a <= f {
            (a, f)
        } else {
            (f, a)
        };
        if before == 0 {
            assert(a * 0 == 0);
            a_quotient_lies_between(f * s, s, f, f);
        } else {
            assert(low * t <= w <= high * t) by (nonlinear_arith)
                requires
                    w == a * b + f * s,
                    t == b + s,
                    b >= 0,
                    s >= 0,
                    low <= a <= high,
                    low <= f <= high,
            ;
            a_quotient_lies_between(w, t, low, high);
        }
    }
}

/// A fill is worth nothing at its own price. Whatever a position is marked
/// at, realised profit and open value together move by what the filled
/// quantity gains from the fill's price to the mark, less the commission: to
/// within half a raw unit where the fill closes something, and by as little
/// as the average price can round where it opens or adds, which realises
/// nothing.
pub proof fn a_fill_is_worth_nothing_at_its_price(p: Position, fill: Fill, mark: int)
    requires
        applied(p, fill) is Ok,
    ensures
        ({
            let after = applied(p, fill)->Ok_0;
            let moved = if fill.side == Side::Buy {
                fill.quantity.0 as int
            } else {
                -fill.quantity.0
            };
            let realized = after.realized_pnl.0 - p.realized_pnl.0 + fill.commission.0;
            let open = (mark - after.average_price.0) * after.quantity.0 - (mark
                - p.average_price.0) * p.quantity.0;
            let off = realized * SCALE + open - (mark - fill.price.0) * moved;
            if p.quantity.0 == 0 || (p.quantity.0 > 0) == (moved > 0) {
                realized == 0 && if after.quantity.0 >= 0 {
                    -after.quantity.0 <= off <= after.quantity.0
                } else {
                    after.quantity.0 <= off <= -after.quantity.0
                }
            } else {
                -SCALE <= 2 * off <= SCALE
            }
        }),
{
    let after = applied(p, fill)->Ok_0;
    let moved = signed_quantity(fill);
    let before = p.quantity.0 as int;
    let now = after.quantity.0 as int;
    let (a, b, f) = (p.average_price.0 as int, after.average_price.0 as int, fill.price.0 as int);
    let open = (mark - b) * now - (mark - a) * before;
    assert(now == before + moved);
    if opens_or_adds(before, moved) {
        let t = magnitude(before) + magnitude(moved);
        let w = a * magnitude(before) + f * magnitude(moved);
        if t == 0 {
            assert(open - (mark - f) * moved == 0) by (nonlinear_arith)
                requires
                    open == (mark - b) * now - (mark - a) * before,
                    now == 0,
                    before == 0,
                    moved == 0,
            ;
        } else {
            a_quotient_is_near(w, t);
            average_fits(a, magnitude(before), f, magnitude(moved));
            assert((mark - b) * now == mark * before + mark * moved - b * before - b * moved)
                by (nonlinear_arith)
                requires
                    now == before + moved,
            ;
            assert((mark - a) * before == mark * before - a * before) by (nonlinear_arith);
            assert((mark - f) * moved == mark * moved - f * moved) by (nonlinear_arith);
            if before > 0 || moved > 0 {
                assert(b * t == b * before + b * moved) by (nonlinear_arith)
                    requires
                        t == before + moved,
                ;
            } else {
                assert(b * t == -(b * before) - b * moved) by (nonlinear_arith)
                    requires
                        t == -before - moved,
                ;
                assert(a * (-before) == -(a * before)) by (nonlinear_arith);
                assert(f * (-moved) == -(f * moved)) by (nonlinear_arith);
            }
        }
    } else {
        let gain = gain_per_unit(p, fill.price);
        let closed = closed_quantity(before, moved);
        notional_is_nearest(gain, closed);
        assert(open - (mark - f) * moved == -(gain * closed)) by {
            if magnitude(moved) <= magnitude(before) {
                if now == 0 {
                    assert((mark - b) * now == 0) by (nonlinear_arith)
                        requires
                            now == 0,
                    ;
                    assert((mark - a) * now == 0) by (nonlinear_arith)
                        requires
                            now == 0,
                    ;
                }
                assert(open == (mark - a) * now - (mark - a) * before);
                if before > 0 {
                    assert(open - (mark - f) * moved == -((f - a) * (-moved))) by (nonlinear_arith)
                        requires
                            open == (mark - a) * now - (mark - a) * before,
                            now == before + moved,
                    ;
                } else {
                    assert(open - (mark - f) * moved == -((a - f) * moved)) by (nonlinear_arith)
                        requires
                            open == (mark - a) * now - (mark - a) * before,
                            now == before + moved,
                    ;
                }
            } else {
                if before > 0 {
                    assert(open - (mark - f) * moved == -((f - a) * before)) by (nonlinear_arith)
                        requires
                            open == (mark - f) * now - (mark - a) * before,
                            now == before + moved,
                    ;
                } else {
                    assert(open - (mark - f) * moved == -((a - f) * (-before))) by (nonlinear_arith)
                        requires
                            open == (mark - f) * now - (mark - a) * before,
                            now == before + moved,
                    ;
                }
            }
        }
    }
}

/// A fill within ordinary sizes is always booked: it is turned away only
/// where some amount would not fit.
pub proof fn a_fill_that_fits_is_booked(p: Position, fill: Fill)
    requires
        p.fill_count < u64::MAX,
        -0x2000_0000_0000_0000 <= p.quantity.0 <= 0x2000_0000_0000_0000,
        -0x2000_0000_0000_0000 <= fill.quantity.0 <= 0x2000_0000_0000_0000,
        -0x2000_0000_0000_0000 <= p.average_price.0 <= 0x2000_0000_0000_0000,
        -0x2000_0000_0000_0000 <= fill.price.0 <= 0x2000_0000_0000_0000,
        -0x1000_0000_0000_0000 <= p.realized_pnl.0 <= 0x1000_0000_0000_0000,
        -0x1000_0000_0000_0000 <= p.commissions.0 <= 0x1000_0000_0000_0000,
        -0x1000_0000_0000_0000 <= fill.commission.0 <= 0x1000_0000_0000_0000,
        -0x1000_0000_0000_0000 * SCALE <= (fill.price.0 - p.average_price.0) * p.quantity.0
            <= 0x1000_0000_0000_0000 * SCALE,
    ensures
        applied(p, fill) is Ok,
{
    let before = p.quantity.0 as int;
    let signed = signed_quantity(fill);
    if !opens_or_adds(before, signed) {
        let gain = gain_per_unit(p, fill.price);
        let closed = closed_quantity(before, signed);
        let per_unit = fill.price.0 - p.average_price.0;
        let limit = 0x1000_0000_0000_0000 * SCALE;
        if before > 0 {
            assert(-limit <= gain * closed <= limit) by (nonlinear_arith)
                requires
                    gain == per_unit,
                    0 <= closed <= before,
                    -limit <= per_unit * before <= limit,
                    limit > 0,
            ;
        } else {
            assert(-limit <= gain * closed <= limit) by (nonlinear_arith)
                requires
                    gain == -per_unit,
                    0 <= closed <= -before,
                    -limit <= per_unit * before <= limit,
                    limit > 0,
            ;
        }
        notional_is_nearest(gain, closed);
    }
}

/// Open profit is what the held quantity gains from its average price to the
/// mark, to within half a raw unit: a long gains as the mark rises and a
/// short as it falls. A flat position has none.
pub proof fn open_profit_follows_the_mark(p: Position, mark: Price)
    ensures
        unrealized_of(p, mark) matches Ok(v) ==> -SCALE <= 2 * (v.0 * SCALE - (mark.0
            - p.average_price.0) * p.quantity.0) <= SCALE,
        p.quantity.0 == 0 ==> unrealized_of(p, mark) == Ok::<Money, BacktestError>(Money(0)),
        fits(mark.0 - p.average_price.0) && (2 * i64::MIN - 1) * SCALE < 2 * ((mark.0
            - p.average_price.0) * p.quantity.0) < (2 * i64::MAX + 1) * SCALE
            ==> unrealized_of(p, mark) is Ok,
{
    let gain = mark.0 - p.average_price.0;
    a_value_is_the_nearest(gain, p.quantity.0 as int);
    if p.quantity.0 == 0 {
        assert(gain * p.quantity.0 == 0) by (nonlinear_arith)
            requires
                p.quantity.0 == 0,
        ;
    }
}

/// The sum of amounts, added from the first on: the first amount that is not
/// one, or the first sum that does not fit, is the error.
pub open spec fn money_total(items: Seq<Result<Money, BacktestError>>) -> Result<
    Money,
    BacktestError,
>
    decreases items.len(),
{
    if items.len() == 0 {
        Ok(Money(0))
    } else {
        match money_total(items.drop_last()) {
            Err(e) => Err(e),
            Ok(total) => match items.last() {
                Err(e) => Err(e),
                Ok(amount) => if fits(total.0 + amount.0) {
                    Ok(Money((total.0 + amount.0) as i64))
                } else {
                    Err(BacktestError::Overflow { what: "Money::add" })
                },
            },
        }
    }
}

/// One step of a sum, and what stopping at an error means.
pub proof fn money_total_step(items: Seq<Result<Money, BacktestError>>, n: int)
    requires
        0 <= n < items.len(),
    ensures
        money_total(items.take(n + 1)) == (match money_total(items.take(n)) {
            Err(e) => Err(e),
            Ok(total) => match items[n] {
                Err(e) => Err(e),
                Ok(amount) => if fits(total.0 + amount.0) {
                    Ok(Money((total.0 + amount.0) as i64))
                } else {
                    Err(BacktestError::Overflow { what: "Money::add" })
                },
            },
        }),
        money_total(items.take(n + 1)) is Err ==> money_total(items) == money_total(
            items.take(n + 1),
        ),
        items.take(items.len() as int) == items,
        items.take(0) == Seq::<Result<Money, BacktestError>>::empty(),
{
    assert(items.take(n + 1).drop_last() =~= items.take(n));
    assert(items.take(n + 1).last() == items[n]);
    assert(items.take(items.len() as int) =~= items);
    assert(items.take(0) =~= Seq::<Result<Money, BacktestError>>::empty());
    if money_total(items.take(n + 1)) is Err {
        money_total_stops(items, n + 1);
    }
}

proof fn money_total_stops(items: Seq<Result<Money, BacktestError>>, n: int)
    requires
        0 <= n <= items.len(),
        money_total(items.take(n)) is Err,
    ensures
        money_total(items) == money_total(items.take(n)),
    decreases items.len() - n,
{
    if n < items.len() {
        assert(items.take(n + 1).drop_last() =~= items.take(n));
        money_total_stops(items, n + 1);
    } else {
        assert(items.take(n) =~= items);
    }
}

/// Positions by key after a fill, or why it cannot be booked.
pub open spec fn booked(positions: Map<KeyView, Position>, fill: Fill) -> Result<
    Map<KeyView, Position>,
    BacktestError,
> {
    let key: KeyView = (fill.instrument@, fill.outcome.0);
    let held = if positions.dom().contains(key) {
        positions[key]
    } else {
        untouched(fill.instrument, fill.outcome)
    };
    match applied(held, fill) {
        Ok(p) => Ok(positions.insert(key, p)),
        Err(e) => Err(e),
    }
}

/// Positions by key after a history of fills, or why one cannot be booked.
pub open spec fn folded(fills: Seq<Fill>) -> Result<Map<KeyView, Position>, BacktestError>
    decreases fills.len(),
{
    if fills.len() == 0 {
        Ok(Map::empty())
    } else {
        match folded(fills.drop_last()) {
            Ok(positions) => booked(positions, fills.last()),
            Err(e) => Err(e),
        }
    }
}

/// Rebuilding from a history is booking its fills one after the other: the
/// positions a run ends with are the ones its stored fills rebuild.
pub proof fn replay_is_incremental(fills: Seq<Fill>, next: Fill)
    ensures
        folded(fills.push(next)) == (match folded(fills) {
            Ok(positions) => booked(positions, next),
            Err(e) => Err(e),
        }),
{
    assert(fills.push(next).drop_last() =~= fills);
}

proof fn folded_stops(fills: Seq<Fill>, n: int)
    requires
        0 <= n <= fills.len(),
        folded(fills.take(n)) is Err,
    ensures
        folded(fills) == folded(fills.take(n)),
    decreases fills.len() - n,
{
    if n < fills.len() {
        assert(fills.take(n + 1).drop_last() =~= fills.take(n));
        folded_stops(fills, n + 1);
    } else {
        assert(fills.take(n) =~= fills);
    }
}

/// The positions among a list that are not flat.
pub open spec fn open_among(positions: Seq<Position>) -> Seq<Position>
    decreases positions.len(),
{
    if positions.len() == 0 {
        Seq::empty()
    } else {
        let rest = open_among(positions.drop_last());
        if positions.last().quantity.0 != 0 {
            rest.push(positions.last())
        } else {
            rest
        }
    }
}

/// The key a position stands under.
pub open spec fn key_of(p: Position) -> KeyView {
    (p.instrument@, p.outcome.0)
}

/// The open positions among a list that have no mark.
pub open spec fn unmarked_among(positions: Seq<Position>, marks: Map<KeyView, Price>) -> Seq<
    Position,
>
    decreases positions.len(),
{
    if positions.len() == 0 {
        Seq::empty()
    } else {
        let rest = unmarked_among(positions.drop_last(), marks);
        let p = positions.last();
        if p.quantity.0 != 0 && !marks.dom().contains(key_of(p)) {
            rest.push(p)
        } else {
            rest
        }
    }
}

/// What each of a list of positions realised.
pub open spec fn realized_items(positions: Seq<Position>) -> Seq<Result<Money, BacktestError>> {
    positions.map_values(|p: Position| Ok::<Money, BacktestError>(p.realized_pnl))
}

/// What each of a list of positions paid in commissions.
pub open spec fn commission_items(positions: Seq<Position>) -> Seq<Result<Money, BacktestError>> {
    positions.map_values(|p: Position| Ok::<Money, BacktestError>(p.commissions))
}

/// What each of a list of positions is owed on a dividend.
pub open spec fn dividend_items(
    positions: Seq<Position>,
    instrument: Seq<char>,
    per_share: Money,
) -> Seq<Result<Money, BacktestError>> {
    positions.map_values(
        |p: Position|
            if p.instrument@ == instrument && p.quantity.0 != 0 {
                value_of(per_share.0 as int, p.quantity.0 as int)
            } else {
                Ok(Money(0))
            },
    )
}

/// The unrealised profit of each of a list of positions; one without a mark
/// contributes nothing.
pub open spec fn unrealized_items(positions: Seq<Position>, marks: Map<KeyView, Price>) -> Seq<
    Result<Money, BacktestError>,
> {
    positions.map_values(
        |p: Position|
            if marks.dom().contains(key_of(p)) {
                unrealized_of(p, marks[key_of(p)])
            } else {
                Ok(Money(0))
            },
    )
}

/// An amount without its sign.
pub open spec fn absolute(amount: Result<Money, BacktestError>) -> Result<Money, BacktestError> {
    match amount {
        Ok(m) => if m.0 == i64::MIN {
            Err(BacktestError::Overflow { what: "Money::abs" })
        } else {
            Ok(Money(magnitude(m.0 as int) as i64))
        },
        Err(e) => Err(e),
    }
}

/// The size of the exposure of each of a list of positions; one without a
/// mark contributes nothing.
pub open spec fn exposure_items(positions: Seq<Position>, marks: Map<KeyView, Price>) -> Seq<
    Result<Money, BacktestError>,
> {
    positions.map_values(
        |p: Position|
            if marks.dom().contains(key_of(p)) {
                absolute(value_of(marks[key_of(p)].0 as int, p.quantity.0 as int))
            } else {
                Ok(Money(0))
            },
    )
}

proof fn money_total_of_one_more(items: Seq<Result<Money, BacktestError>>)
    requires
        items.len() > 0,
    ensures
        ({
            let all = money_total(items);
            match money_total(items.drop_last()) {
                Err(e) => all == Err::<Money, BacktestError>(e),
                Ok(rest) => match items.last() {
                    Err(e) => all == Err::<Money, BacktestError>(e),
                    Ok(amount) => {
                        &&& all is Ok <==> fits(rest.0 + amount.0)
                        &&& all is Ok ==> all->Ok_0.0 == rest.0 + amount.0
                    },
                },
            }
        }),
{
}

/// Gross exposure is built up from the sizes of the exposures, one position
/// after the other: one that is marked adds its mark times its quantity
/// without the sign, to within half a raw unit, and one that is not adds
/// nothing. It fails only where it would not fit.
pub proof fn gross_exposure_adds_up_sizes(positions: Seq<Position>, marks: Map<KeyView, Price>)
    ensures
        positions.len() == 0 ==> money_total(exposure_items(positions, marks)) == Ok::<
            Money,
            BacktestError,
        >(Money(0)),
        positions.len() > 0 ==> {
            let all = money_total(exposure_items(positions, marks));
            let rest = money_total(exposure_items(positions.drop_last(), marks));
            let p = positions.last();
            let exposure = marks[key_of(p)].0 * p.quantity.0;
            let size = if exposure < 0 {
                -exposure
            } else {
                exposure
            };
            if rest is Err || !marks.dom().contains(key_of(p)) {
                all == rest
            } else {
                let before = rest->Ok_0.0;
                &&& all is Ok ==> -SCALE <= 2 * ((all->Ok_0.0 - before) * SCALE - size) <= SCALE
                &&& all is Ok ==> all->Ok_0.0 >= before
                &&& before * SCALE + size + SCALE <= i64::MAX * SCALE ==> all is Ok
            }
        },
{
    if positions.len() > 0 {
        let p = positions.last();
        let items = exposure_items(positions, marks);
        assert(items.drop_last() =~= exposure_items(positions.drop_last(), marks));
        money_total_of_one_more(items);
        gross_exposure_covers_each(positions.drop_last(), marks);
        a_value_is_the_nearest(marks[key_of(p)].0 as int, p.quantity.0 as int);
    } else {
        assert(exposure_items(positions, marks) =~= Seq::empty());
    }
}

/// Gross exposure is never negative, and no smaller than the exposure of any
/// one marked position, long or short, to within half a raw unit.
pub proof fn gross_exposure_covers_each(positions: Seq<Position>, marks: Map<KeyView, Price>)
    ensures
        money_total(exposure_items(positions, marks)) matches Ok(total) ==> {
            &&& total.0 >= 0
            &&& forall|i: int|
                0 <= i < positions.len() && marks.dom().contains(key_of(#[trigger] positions[i]))
                    ==> {
                    let exposure = marks[key_of(positions[i])].0 * positions[i].quantity.0;
                    &&& 2 * total.0 * SCALE + SCALE >= 2 * exposure
                    &&& 2 * total.0 * SCALE + SCALE >= -2 * exposure
                }
        },
    decreases positions.len(),
{
    if positions.len() > 0 {
        let head = positions.drop_last();
        let p = positions.last();
        let items = exposure_items(positions, marks);
        gross_exposure_covers_each(head, marks);
        assert(items.drop_last() =~= exposure_items(head, marks));
        money_total_of_one_more(items);
        a_value_is_the_nearest(marks[key_of(p)].0 as int, p.quantity.0 as int);
        if money_total(items) is Ok {
            let total = money_total(items)->Ok_0;
            assert forall|i: int|
                0 <= i < positions.len() && marks.dom().contains(
                    key_of(#[trigger] positions[i]),
                ) implies {
                let exposure = marks[key_of(positions[i])].0 * positions[i].quantity.0;
                &&& 2 * total.0 * SCALE + SCALE >= 2 * exposure
                &&& 2 * total.0 * SCALE + SCALE >= -2 * exposure
            } by {
                if i < head.len() {
                    assert(head[i] == positions[i]);
                }
            }
        }
    }
}

/// The gross exposure of a single marked position is its mark times its
/// quantity without the sign, to within half a raw unit.
pub proof fn gross_exposure_of_one(p: Position, marks: Map<KeyView, Price>)
    requires
        marks.dom().contains(key_of(p)),
    ensures
        ({
            let total = money_total(exposure_items(seq![p], marks));
            let exposure = marks[key_of(p)].0 * p.quantity.0;
            let size = if exposure < 0 {
                -exposure
            } else {
                exposure
            };
            &&& total is Ok <==> 2 * size < (2 * i64::MAX + 1) * SCALE
            &&& total is Ok ==> -SCALE <= 2 * (total->Ok_0.0 * SCALE - size) <= SCALE
        }),
{
    let items = exposure_items(seq![p], marks);
    assert(seq![p].drop_last() =~= Seq::empty());
    gross_exposure_adds_up_sizes(Seq::empty(), marks);
    gross_exposure_adds_up_sizes(seq![p], marks);
    assert(items.drop_last() =~= exposure_items(Seq::empty(), marks));
    money_total_of_one_more(items);
    assert(items.last() == absolute(value_of(marks[key_of(p)].0 as int, p.quantity.0 as int)));
    a_value_is_the_nearest(marks[key_of(p)].0 as int, p.quantity.0 as int);
}

/// Gross exposure does not depend on which way positions lie: turning the
/// sign of any of the quantities leaves it as it is.
pub proof fn gross_exposure_ignores_direction(
    positions: Seq<Position>,
    turned: Seq<Position>,
    marks: Map<KeyView, Price>,
)
    requires
        turned.len() == positions.len(),
        forall|i: int|
            0 <= i < positions.len() ==> key_of(#[trigger] turned[i]) == key_of(positions[i]) && (
            turned[i].quantity.0 == positions[i].quantity.0 || turned[i].quantity.0
                == -positions[i].quantity.0),
    ensures
        ({
            let a = money_total(exposure_items(positions, marks));
            let b = money_total(exposure_items(turned, marks));
            &&& a is Ok <==> b is Ok
            &&& a is Ok ==> a == b
        }),
    decreases positions.len(),
{
    if positions.len() > 0 {
        let (xs, ys) = (exposure_items(positions, marks), exposure_items(turned, marks));
        let (p, q) = (positions.last(), turned.last());
        assert(turned[positions.len() - 1] == q);
        gross_exposure_ignores_direction(positions.drop_last(), turned.drop_last(), marks);
        assert(xs.drop_last() =~= exposure_items(positions.drop_last(), marks));
        assert(ys.drop_last() =~= exposure_items(turned.drop_last(), marks));
        money_total_of_one_more(xs);
        money_total_of_one_more(ys);
        notional_is_odd(marks[key_of(p)].0 as int, p.quantity.0 as int);
    } else {
        assert(exposure_items(positions, marks) =~= exposure_items(turned, marks));
    }
}

/// Realised profit and commissions are plain sums over the positions: each
/// adds its own, and they fail only where the sum does not fit.
pub proof fn realized_and_commissions_add_up(positions: Seq<Position>)
    ensures
        positions.len() == 0 ==> {
            &&& money_total(realized_items(positions)) == Ok::<Money, BacktestError>(Money(0))
            &&& money_total(commission_items(positions)) == Ok::<Money, BacktestError>(Money(0))
        },
        positions.len() > 0 ==> {
            let p = positions.last();
            let head = positions.drop_last();
            &&& match money_total(realized_items(head)) {
                Err(e) => money_total(realized_items(positions)) == Err::<Money, BacktestError>(e),
                Ok(rest) => match money_total(realized_items(positions)) {
                    Ok(all) => all.0 - rest.0 == p.realized_pnl.0,
                    Err(_) => !(i64::MIN <= rest.0 + p.realized_pnl.0 <= i64::MAX),
                },
            }
            &&& match money_total(commission_items(head)) {
                Err(e) => money_total(commission_items(positions)) == Err::<Money, BacktestError>(
                    e,
                ),
                Ok(rest) => match money_total(commission_items(positions)) {
                    Ok(all) => all.0 - rest.0 == p.commissions.0,
                    Err(_) => !(i64::MIN <= rest.0 + p.commissions.0 <= i64::MAX),
                },
            }
        },
{
    if positions.len() > 0 {
        let head = positions.drop_last();
        assert(realized_items(positions).drop_last() =~= realized_items(head));
        assert(commission_items(positions).drop_last() =~= commission_items(head));
        money_total_of_one_more(realized_items(positions));
        money_total_of_one_more(commission_items(positions));
    }
}

/// Open profit is built up over the positions: one that is marked adds what
/// its quantity gains from its average price to its mark, to within half a
/// raw unit, and one that is not adds nothing, whatever it cost.
pub proof fn open_profit_adds_up(positions: Seq<Position>, marks: Map<KeyView, Price>)
    ensures
        positions.len() == 0 ==> money_total(unrealized_items(positions, marks)) == Ok::<
            Money,
            BacktestError,
        >(Money(0)),
        positions.len() > 0 ==> {
            let all = money_total(unrealized_items(positions, marks));
            let rest = money_total(unrealized_items(positions.drop_last(), marks));
            let p = positions.last();
            let gain = (marks[key_of(p)].0 - p.average_price.0) * p.quantity.0;
            if rest is Err || !marks.dom().contains(key_of(p)) || p.quantity.0 == 0 {
                all == rest
            } else {
                &&& all is Ok ==> -SCALE <= 2 * ((all->Ok_0.0 - rest->Ok_0.0) * SCALE - gain)
                    <= SCALE
                &&& i64::MIN <= marks[key_of(p)].0 - p.average_price.0 <= i64::MAX && -i64::MAX
                    * SCALE + SCALE <= gain <= i64::MAX * SCALE - SCALE && -i64::MAX * SCALE
                    + SCALE <= rest->Ok_0.0 * SCALE + gain <= i64::MAX * SCALE - SCALE
                    ==> all is Ok
            }
        },
{
    if positions.len() > 0 {
        let p = positions.last();
        let items = unrealized_items(positions, marks);
        assert(items.drop_last() =~= unrealized_items(positions.drop_last(), marks));
        money_total_of_one_more(items);
        open_profit_follows_the_mark(p, marks[key_of(p)]);
    }
}

/// A dividend is built up over the positions: each one in the instrument
/// adds what a share pays times its quantity, to within half a raw unit, so
/// that a long is paid and a short pays, and any other adds nothing.
pub proof fn dividends_add_up(positions: Seq<Position>, instrument: Seq<char>, per_share: Money)
    ensures
        positions.len() == 0 ==> money_total(dividend_items(positions, instrument, per_share))
            == Ok::<Money, BacktestError>(Money(0)),
        positions.len() > 0 ==> {
            let all = money_total(dividend_items(positions, instrument, per_share));
            let rest = money_total(dividend_items(positions.drop_last(), instrument, per_share));
            let p = positions.last();
            let due = per_share.0 * p.quantity.0;
            if rest is Err || p.instrument@ != instrument || p.quantity.0 == 0 {
                all == rest
            } else {
                &&& all is Ok ==> {
                    let added = all->Ok_0.0 - rest->Ok_0.0;
                    &&& -SCALE <= 2 * (added * SCALE - due) <= SCALE
                    &&& due >= 0 ==> added >= 0
                    &&& due <= 0 ==> added <= 0
                }
                &&& -i64::MAX * SCALE + SCALE <= due <= i64::MAX * SCALE - SCALE && -i64::MAX
                    * SCALE + SCALE <= rest->Ok_0.0 * SCALE + due <= i64::MAX * SCALE - SCALE
                    ==> all is Ok
            }
        },
{
    if positions.len() > 0 {
        let p = positions.last();
        let items = dividend_items(positions, instrument, per_share);
        assert(items.drop_last() =~= dividend_items(
            positions.drop_last(),
            instrument,
            per_share,
        ));
        money_total_of_one_more(items);
        a_value_is_the_nearest(per_share.0 as int, p.quantity.0 as int);
    }
}

/// Which positions are open and which of them cannot be valued: those that
/// hold something, and those among them without a mark, in the order they
/// are listed.
pub proof fn open_and_unmarked_are_picked_out(
    positions: Seq<Position>,
    marks: Map<KeyView, Price>,
)
    ensures
        open_among(positions) == positions.filter(|p: Position| p.quantity.0 != 0),
        unmarked_among(positions, marks) == positions.filter(
            |p: Position| p.quantity.0 != 0 && !marks.dom().contains(key_of(p)),
        ),
    decreases positions.len(),
{
    reveal(Seq::filter);
    if positions.len() > 0 {
        open_and_unmarked_are_picked_out(positions.drop_last(), marks);
    }
}

/// What a history of fills adds up to in one instrument outcome: what was
/// bought less what was sold.
pub open spec fn net_quantity(fills: Seq<Fill>, key: KeyView) -> int
    decreases fills.len(),
{
    if fills.len() == 0 {
        0
    } else {
        let fill = fills.last();
        net_quantity(fills.drop_last(), key) + if (fill.instrument@, fill.outcome.0) != key {
            0
        } else if fill.side == Side::Buy {
            fill.quantity.0 as int
        } else {
            -fill.quantity.0
        }
    }
}

/// What a history of fills costs in one instrument outcome.
pub open spec fn commissions_paid(fills: Seq<Fill>, key: KeyView) -> int
    decreases fills.len(),
{
    if fills.len() == 0 {
        0
    } else {
        let fill = fills.last();
        commissions_paid(fills.drop_last(), key) + if (fill.instrument@, fill.outcome.0) == key {
            fill.commission.0 as int
        } else {
            0
        }
    }
}

/// A position is the sum of its fills: after any history, what is held under
/// a key is what was bought less what was sold of it, its commissions are
/// those of its fills, and there is one wherever there was a fill.
pub proof fn positions_are_the_sum_of_their_fills(fills: Seq<Fill>, key: KeyView)
    requires
        folded(fills) is Ok,
    ensures
        ({
            let positions = folded(fills)->Ok_0;
            &&& positions.dom().contains(key) <==> exists|i: int|
                0 <= i < fills.len() && ((#[trigger] fills[i]).instrument@, fills[i].outcome.0)
                    == key
            &&& positions.dom().contains(key) ==> {
                &&& key_of(positions[key]) == key
                &&& positions[key].quantity.0 == net_quantity(fills, key)
                &&& positions[key].commissions.0 == commissions_paid(fills, key)
            }
            &&& !positions.dom().contains(key) ==> net_quantity(fills, key) == 0
                && commissions_paid(fills, key) == 0
        }),
    decreases fills.len(),
{
    if fills.len() > 0 {
        let head = fills.drop_last();
        let fill = fills.last();
        positions_are_the_sum_of_their_fills(head, key);
        let before = folded(head)->Ok_0;
        let own: KeyView = (fill.instrument@, fill.outcome.0);
        let held = if before.dom().contains(own) {
            before[own]
        } else {
            untouched(fill.instrument, fill.outcome)
        };
        a_fill_moves_a_position(held, fill);
        if before.dom().contains(key) {
            let i = choose|i: int|
                0 <= i < head.len() && ((#[trigger] head[i]).instrument@, head[i].outcome.0) == key;
            assert(fills[i] == head[i]);
        }
        assert(fills[fills.len() - 1] == fill);
        if exists|i: int|
            0 <= i < fills.len() && ((#[trigger] fills[i]).instrument@, fills[i].outcome.0)
                == key {
            let i = choose|i: int|
                0 <= i < fills.len() && ((#[trigger] fills[i]).instrument@, fills[i].outcome.0)
                    == key;
            if i < head.len() {
                assert(head[i] == fills[i]);
            }
        }
    }
}

/// A fill moves the position it is in and no other.
pub proof fn a_fill_leaves_other_positions(
    positions: Map<KeyView, Position>,
    fill: Fill,
    other: KeyView,
)
    requires
        booked(positions, fill) is Ok,
        other != (fill.instrument@, fill.outcome.0),
    ensures
        ({
            let after = booked(positions, fill)->Ok_0;
            &&& after.dom().contains(other) == positions.dom().contains(other)
            &&& positions.dom().contains(other) ==> after[other] == positions[other]
        }),
{
}

/// Whether a position belongs to an instrument and cannot be split.
pub open spec fn refuses_split(p: Position, instrument: Seq<char>, ratio: Price) -> bool {
    p.instrument@ == instrument && p.quantity.0 != 0 && (ratio.0 <= 0 || split_applied(
        p,
        ratio,
    ) is Err)
}

/// Every position in a run, plus the marks needed to value them.
pub struct Portfolio {
    positions: SortedMap<PositionKey, Position>,
    marks: SortedMap<PositionKey, Price>,
}

/// The positions of a list of entries.
pub open spec fn values_of(entries: Seq<(PositionKey, Position)>) -> Seq<Position> {
    entries.map_values(|e: (PositionKey, Position)| e.1)
}

/// Each entry stands under its own key.
pub open spec fn keyed(entries: Seq<(PositionKey, Position)>) -> bool {
    forall|i: int| 0 <= i < entries.len() ==> (#[trigger] entries[i]).0@ == key_of(entries[i].1)
}

impl Portfolio {
    pub closed spec fn wf(&self) -> bool {
        &&& self.positions.wf()
        &&& self.marks.wf()
        &&& keyed(self.positions.seq())
    }

    /// The positions by key.
    pub closed spec fn held(&self) -> Map<KeyView, Position> {
        self.positions@
    }

    /// The positions in key order.
    pub closed spec fn listed(&self) -> Seq<Position> {
        values_of(self.positions.seq())
    }

    /// The marks by key.
    pub closed spec fn marked(&self) -> Map<KeyView, Price> {
        self.marks@
    }

    /// Fills tell the whole story of what is held: whatever is rebuilt from
    /// them holds the same positions, lists them alike, and adds up to the
    /// same profit and the same commissions.
    pub proof fn rebuilt_from_fills(&self, rebuilt: &Self, fills: Seq<Fill>)
        requires
            self.wf(),
            rebuilt.wf(),
            folded(fills) == Ok::<Map<KeyView, Position>, BacktestError>(self.held()),
            folded(fills) == Ok::<Map<KeyView, Position>, BacktestError>(rebuilt.held()),
        ensures
            rebuilt.held() == self.held(),
            rebuilt.listed() == self.listed(),
            money_total(realized_items(rebuilt.listed())) == money_total(
                realized_items(self.listed()),
            ),
            money_total(commission_items(rebuilt.listed())) == money_total(
                commission_items(self.listed()),
            ),
    {
        self.same_positions_list_alike(rebuilt);
    }

    /// Portfolios that list the same positions hold them alike.
    pub proof fn same_lists_hold_alike(&self, other: &Self)
        requires
            self.wf(),
            other.wf(),
            self.listed() == other.listed(),
        ensures
            self.held() == other.held(),
    {
        self.listed_is_sorted();
        other.listed_is_sorted();
        let (p, q) = (self.held(), other.held());
        assert forall|k: KeyView| p.dom().contains(k) == #[trigger] q.dom().contains(k) by {}
        assert forall|k: KeyView| #[trigger] p.dom().contains(k) implies p[k] == q[k] by {
            let i = choose|i: int|
                0 <= i < self.listed().len() && key_of(#[trigger] self.listed()[i]) == k;
            assert(q[key_of(other.listed()[i])] == other.listed()[i]);
        }
        assert(p =~= q);
    }

    /// Portfolios that hold the same positions list them alike.
    pub proof fn same_positions_list_alike(&self, other: &Self)
        requires
            self.wf(),
            other.wf(),
            self.held() == other.held(),
        ensures
            self.listed() == other.listed(),
    {
        sorted_one_way(self.positions.seq(), other.positions.seq());
        assert(self.listed() =~= other.listed());
    }

    /// What is listed is what is held: each position once, under its key, in
    /// strictly increasing key order.
    pub proof fn listed_is_sorted(&self)
        requires
            self.wf(),
        ensures
            forall|i: int, j: int|
                0 <= i < j < self.listed().len() ==> <PositionKey as OrderedKey>::before(
                    key_of(#[trigger] self.listed()[i]),
                    key_of(#[trigger] self.listed()[j]),
                ),
            forall|i: int|
                0 <= i < self.listed().len() ==> self.held().dom().contains(
                    key_of(#[trigger] self.listed()[i]),
                ) && self.held()[key_of(self.listed()[i])] == self.listed()[i],
            forall|k: KeyView| #[trigger]
                self.held().dom().contains(k) ==> key_of(self.held()[k]) == k && exists|i: int|
                    0 <= i < self.listed().len() && key_of(#[trigger] self.listed()[i]) == k,
    {
        let s = self.positions.seq();
        let l = self.listed();
        entries_map_contains(s);
        assert forall|i: int, j: int| 0 <= i < j < l.len() implies <PositionKey as OrderedKey>::before(
            key_of(#[trigger] l[i]),
            key_of(#[trigger] l[j]),
        ) by {
            assert(<PositionKey as OrderedKey>::before(s[i].0@, s[j].0@));
        }
        assert forall|i: int| 0 <= i < l.len() implies self.held().dom().contains(
            key_of(#[trigger] l[i]),
        ) && self.held()[key_of(l[i])] == l[i] by {
            assert(s[i].0@ == key_of(s[i].1));
        }
        assert forall|k: KeyView| #[trigger] self.held().dom().contains(k) implies key_of(
            self.held()[k],
        ) == k && exists|i: int| 0 <= i < l.len() && key_of(#[trigger] l[i]) == k by {
            let i = choose|i: int| 0 <= i < s.len() && (#[trigger] s[i]).0@ == k;
            assert(key_of(l[i]) == k);
        }
    }

    pub fn new() -> (p: Self)
        ensures
            p.wf(),
            p.held() == Map::<KeyView, Position>::empty(),
            p.listed() == Seq::<Position>::empty(),
            p.marked() == Map::<KeyView, Price>::empty(),
    {
        let p = Portfolio { positions: SortedMap::new(), marks: SortedMap::new() };
        assert(p.listed() =~= Seq::<Position>::empty());
        p
    }

    /// Book a fill. One that cannot be booked leaves the portfolio as it
    /// was.
    pub fn apply(&mut self, fill: &Fill) -> (r: Result<(), BacktestError>)
        requires
            old(self).wf(),
        ensures
            final(self).wf(),
            final(self).marked() == old(self).marked(),
            match r {
                Ok(_) => booked(old(self).held(), *fill) == Ok::<
                    Map<KeyView, Position>,
                    BacktestError,
                >(final(self).held()),
                Err(e) => booked(old(self).held(), *fill) == Err::<
                    Map<KeyView, Position>,
                    BacktestError,
                >(e) && *final(self) == *old(self),
            },
    {
        let key: PositionKey = (fill.instrument.clone(), fill.outcome);
        let ghost k = key@;
        proof {
            assert(k == (fill.instrument@, fill.outcome.0));
            self.listed_is_sorted();
        }
        let mut position = match self.positions.get(&key) {
            Some(p) => p.clone(),
            None => Position::new(fill.instrument.clone(), fill.outcome),
        };
        let ghost held = position;
        position.apply(fill)?;
        let ghost before = self.positions.seq();
        let at = self.positions.insert(key, position);
        proof {
            let after = self.positions.seq();
            assert(key_of(position) == k);
            assert forall|i: int| 0 <= i < after.len() implies (#[trigger] after[i]).0@ == key_of(
                after[i].1,
            ) by {
                if i == at {
                } else if old(self).positions@.dom().contains(k) {
                    assert(after[i] == before[i]);
                } else if i < at {
                    assert(after[i] == before[i]);
                } else {
                    assert(after[i] == before[i - 1]);
                }
            }
        }
        Ok(())
    }

    /// Rebuild from a fill history. The inverse of storing the fills, and
    /// what makes a stored run checkable.
    pub fn replay(fills: &[Fill]) -> (r: Result<Self, BacktestError>)
        ensures
            match r {
                Ok(p) => p.wf() && p.marked() == Map::<KeyView, Price>::empty() && folded(fills@)
                    == Ok::<Map<KeyView, Position>, BacktestError>(p.held()),
                Err(e) => folded(fills@) == Err::<Map<KeyView, Position>, BacktestError>(e),
            },
    {
        let mut portfolio = Portfolio::new();
        let n: usize = fills.len();
        let mut i: usize = 0;
        assert(fills@.take(0) =~= Seq::<Fill>::empty());
        while i < n
            invariant
                n == fills@.len(),
                i <= n,
                portfolio.wf(),
                portfolio.marked() == Map::<KeyView, Price>::empty(),
                folded(fills@.take(i as int)) == Ok::<Map<KeyView, Position>, BacktestError>(
                    portfolio.held(),
                ),
            decreases n - i,
        {
            assert(fills@.take(i + 1).drop_last() =~= fills@.take(i as int));
            assert(fills@.take(i + 1).last() == fills@[i as int]);
            match portfolio.apply(&fills[i]) {
                Ok(_) => {},
                Err(e) => {
                    proof {
                        folded_stops(fills@, i + 1);
                    }
                    return Err(e);
                },
            }
            i += 1;
        }
        assert(fills@.take(n as int) =~= fills@);
        Ok(portfolio)
    }

    /// Whether the position at place `i` is the first of an instrument that
    /// cannot be split.
    pub open spec fn first_refusal(&self, instrument: Seq<char>, ratio: Price, i: int) -> bool {
        &&& 0 <= i < self.listed().len()
        &&& refuses_split(self.listed()[i], instrument, ratio)
        &&& forall|j: int|
            0 <= j < i ==> !refuses_split(#[trigger] self.listed()[j], instrument, ratio)
    }

    /// Apply a split to every outcome of one instrument. Where one of them
    /// cannot be split, none is.
    pub fn apply_split(&mut self, instrument: &InstrumentId, ratio: Price) -> (r: Result<
        (),
        BacktestError,
    >)
        requires
            old(self).wf(),
        ensures
            final(self).wf(),
            final(self).marked() == old(self).marked(),
            match r {
                Ok(_) => {
                    &&& forall|i: int|
                        0 <= i < old(self).listed().len() ==> !refuses_split(
                            #[trigger] old(self).listed()[i],
                            instrument@,
                            ratio,
                        )
                    &&& final(self).listed().len() == old(self).listed().len()
                    &&& forall|i: int|
                        0 <= i < final(self).listed().len() ==> #[trigger] final(self).listed()[i]
                            == (if old(self).listed()[i].instrument@ == instrument@ {
                            split_applied(old(self).listed()[i], ratio)->Ok_0
                        } else {
                            old(self).listed()[i]
                        })
                },
                Err(e) => *final(self) == *old(self) && exists|i: int| #[trigger]
                    old(self).first_refusal(instrument@, ratio, i) && if ratio.0 <= 0 {
                        says(e, "split ratio must be positive"@)
                    } else {
                        split_applied(old(self).listed()[i], ratio) == Err::<
                            Position,
                            BacktestError,
                        >(e)
                    },
            },
    {
        let n: usize = self.positions.len();
        let mut updated: Vec<Position> = Vec::new();
        let mut i: usize = 0;
        while i < n
            invariant
                self.wf(),
                *self == *old(self),
                n == self.listed().len(),
                i <= n,
                updated@.len() == i,
                forall|j: int|
                    0 <= j < i ==> !refuses_split(
                        #[trigger] self.listed()[j],
                        instrument@,
                        ratio,
                    ),
                forall|j: int|
                    0 <= j < i ==> #[trigger] updated@[j] == (if self.listed()[j].instrument@
                        == instrument@ {
                        split_applied(self.listed()[j], ratio)->Ok_0
                    } else {
                        self.listed()[j]
                    }),
            decreases n - i,
        {
            let mut position = self.positions.value_at(i).clone();
            assert(position == self.listed()[i as int]);
            if position.instrument == *instrument {
                match position.apply_split(ratio) {
                    Ok(_) => {},
                    Err(e) => {
                        assert(self.first_refusal(instrument@, ratio, i as int));
                        return Err(e);
                    },
                }
            }
            updated.push(position);
            i += 1;
        }
        i = 0;
        while i < n
            invariant
                self.wf(),
                self.marks == old(self).marks,
                n == self.listed().len(),
                n == old(self).listed().len(),
                i <= n,
                updated@.len() == n,
                forall|j: int|
                    0 <= j < n ==> key_of(#[trigger] updated@[j]) == key_of(old(self).listed()[j]),
                forall|j: int| 0 <= j < i ==> #[trigger] self.listed()[j] == updated@[j],
                forall|j: int|
                    i <= j < n ==> #[trigger] self.listed()[j] == old(self).listed()[j],
            decreases n - i,
        {
            let ghost before = self.positions.seq();
            let ghost l = self.listed();
            assert(l[i as int] == old(self).listed()[i as int]);
            assert(before[i as int].0@ == key_of(before[i as int].1));
            self.positions.set_at(i, updated[i].clone());
            proof {
                let after = self.positions.seq();
                assert(key_of(updated@[i as int]) == key_of(old(self).listed()[i as int]));
                assert forall|j: int| 0 <= j < after.len() implies (#[trigger] after[j]).0@
                    == key_of(after[j].1) by {
                    if j != i {
                        assert(after[j] == before[j]);
                    }
                }
                assert forall|j: int| 0 <= j < n && j != i implies #[trigger] self.listed()[j]
                    == l[j] by {
                    assert(after[j] == before[j]);
                }
                assert(self.listed()[i as int] == updated@[i as int]);
            }
            i += 1;
        }
        Ok(())
    }

    /// Cash owed on a dividend: positive to a long, negative from a short.
    pub fn dividend_due(&self, instrument: &InstrumentId, per_share: Money) -> (r: Result<
        Money,
        BacktestError,
    >)
        ensures
            r == money_total(dividend_items(self.listed(), instrument@, per_share)),
    {
        let ghost items = dividend_items(self.listed(), instrument@, per_share);
        let mut total = Money(0);
        let n: usize = self.positions.len();
        let mut i: usize = 0;
        assert(items.take(0) =~= Seq::<Result<Money, BacktestError>>::empty());
        while i < n
            invariant
                n == self.listed().len(),
                i <= n,
                items == dividend_items(self.listed(), instrument@, per_share),
                money_total(items.take(i as int)) == Ok::<Money, BacktestError>(total),
            decreases n - i,
        {
            let position = self.positions.value_at(i);
            proof {
                money_total_step(items, i as int);
                assert(*position == self.listed()[i as int]);
            }
            if position.instrument == *instrument && !position.is_flat() {
                let due = notional(Price(per_share.0), position.quantity)?;
                total = total.checked_add(due)?;
            }
            i += 1;
        }
        assert(items.take(n as int) =~= items);
        Ok(total)
    }

    /// Set the mark of an outcome.
    pub fn mark(&mut self, instrument: &InstrumentId, outcome: OutcomeId, price: Price)
        requires
            old(self).wf(),
        ensures
            final(self).wf(),
            final(self).held() == old(self).held(),
            final(self).listed() == old(self).listed(),
            final(self).marked() == old(self).marked().insert((instrument@, outcome.0), price),
    {
        let key: PositionKey = (instrument.clone(), outcome);
        assert(key@ == (instrument@, outcome.0));
        self.marks.insert(key, price);
    }

    pub fn position(&self, instrument: &InstrumentId, outcome: OutcomeId) -> (r: Option<&Position>)
        requires
            self.wf(),
        ensures
            r == (if self.held().dom().contains((instrument@, outcome.0)) {
                Some(&self.held()[(instrument@, outcome.0)])
            } else {
                None
            }),
    {
        let key: PositionKey = (instrument.clone(), outcome);
        assert(key@ == (instrument@, outcome.0));
        self.positions.get(&key)
    }

    /// How many positions there are, flat ones among them.
    pub fn len(&self) -> (n: usize)
        ensures
            n == self.listed().len(),
    {
        self.positions.len()
    }

    /// The position at place `i` in key order.
    pub fn at(&self, i: usize) -> (r: &Position)
        requires
            i < self.listed().len(),
        ensures
            *r == self.listed()[i as int],
    {
        self.positions.value_at(i)
    }

    /// Positions in key order, so any iteration is deterministic.
    pub fn positions(&self) -> (out: Vec<&Position>)
        ensures
            out@.len() == self.listed().len(),
            forall|i: int| 0 <= i < out@.len() ==> *(#[trigger] out@[i]) == self.listed()[i],
    {
        let mut out: Vec<&Position> = Vec::new();
        let n: usize = self.positions.len();
        let mut i: usize = 0;
        while i < n
            invariant
                n == self.listed().len(),
                i <= n,
                out@.len() == i,
                forall|j: int| 0 <= j < i ==> *(#[trigger] out@[j]) == self.listed()[j],
            decreases n - i,
        {
            out.push(self.positions.value_at(i));
            i += 1;
        }
        out
    }

    /// The positions that are not flat, in key order.
    pub fn open_positions(&self) -> (out: Vec<&Position>)
        ensures
            out@.len() == open_among(self.listed()).len(),
            forall|i: int|
                0 <= i < out@.len() ==> *(#[trigger] out@[i]) == open_among(self.listed())[i],
    {
        let mut out: Vec<&Position> = Vec::new();
        let n: usize = self.positions.len();
        let mut i: usize = 0;
        assert(self.listed().take(0) =~= Seq::<Position>::empty());
        while i < n
            invariant
                n == self.listed().len(),
                i <= n,
                out@.len() == open_among(self.listed().take(i as int)).len(),
                forall|j: int|
                    0 <= j < out@.len() ==> *(#[trigger] out@[j]) == open_among(
                        self.listed().take(i as int),
                    )[j],
            decreases n - i,
        {
            let p = self.positions.value_at(i);
            assert(self.listed().take(i + 1).drop_last() =~= self.listed().take(i as int));
            assert(self.listed().take(i + 1).last() == *p);
            if !p.is_flat() {
                out.push(p);
            }
            i += 1;
        }
        assert(self.listed().take(n as int) =~= self.listed());
        out
    }

    pub fn realized_pnl(&self) -> (r: Result<Money, BacktestError>)
        ensures
            r == money_total(realized_items(self.listed())),
    {
        let ghost items = realized_items(self.listed());
        let mut total = Money(0);
        let n: usize = self.positions.len();
        let mut i: usize = 0;
        assert(items.take(0) =~= Seq::<Result<Money, BacktestError>>::empty());
        while i < n
            invariant
                n == self.listed().len(),
                i <= n,
                items == realized_items(self.listed()),
                money_total(items.take(i as int)) == Ok::<Money, BacktestError>(total),
            decreases n - i,
        {
            proof {
                money_total_step(items, i as int);
            }
            total = total.checked_add(self.positions.value_at(i).realized_pnl)?;
            i += 1;
        }
        assert(items.take(n as int) =~= items);
        Ok(total)
    }

    pub fn commissions(&self) -> (r: Result<Money, BacktestError>)
        ensures
            r == money_total(commission_items(self.listed())),
    {
        let ghost items = commission_items(self.listed());
        let mut total = Money(0);
        let n: usize = self.positions.len();
        let mut i: usize = 0;
        assert(items.take(0) =~= Seq::<Result<Money, BacktestError>>::empty());
        while i < n
            invariant
                n == self.listed().len(),
                i <= n,
                items == commission_items(self.listed()),
                money_total(items.take(i as int)) == Ok::<Money, BacktestError>(total),
            decreases n - i,
        {
            proof {
                money_total_step(items, i as int);
            }
            total = total.checked_add(self.positions.value_at(i).commissions)?;
            i += 1;
        }
        assert(items.take(n as int) =~= items);
        Ok(total)
    }

    /// Unrealized profit across marked positions.
    ///
    /// An open position with no mark contributes nothing and is reported by
    /// [`Self::unmarked`], rather than being valued at its entry price,
    /// which would quietly report a loss-making book as flat.
    pub fn unrealized_pnl(&self) -> (r: Result<Money, BacktestError>)
        requires
            self.wf(),
        ensures
            r == money_total(unrealized_items(self.listed(), self.marked())),
    {
        let ghost items = unrealized_items(self.listed(), self.marked());
        let mut total = Money(0);
        let n: usize = self.positions.len();
        let mut i: usize = 0;
        assert(items.take(0) =~= Seq::<Result<Money, BacktestError>>::empty());
        while i < n
            invariant
                self.wf(),
                n == self.listed().len(),
                i <= n,
                items == unrealized_items(self.listed(), self.marked()),
                money_total(items.take(i as int)) == Ok::<Money, BacktestError>(total),
            decreases n - i,
        {
            let position = self.positions.value_at(i);
            proof {
                money_total_step(items, i as int);
                assert(*position == self.listed()[i as int]);
            }
            if let Some(mark) = self.mark_of(position) {
                total = total.checked_add(position.unrealized_pnl(mark)?)?;
            }
            i += 1;
        }
        assert(items.take(n as int) =~= items);
        Ok(total)
    }

    /// The mark of a position.
    fn mark_of(&self, position: &Position) -> (r: Option<Price>)
        requires
            self.wf(),
        ensures
            r == (if self.marked().dom().contains(key_of(*position)) {
                Some(self.marked()[key_of(*position)])
            } else {
                None
            }),
    {
        let key: PositionKey = (position.instrument.clone(), position.outcome);
        assert(key@ == key_of(*position));
        match self.marks.get(&key) {
            Some(mark) => Some(*mark),
            None => None,
        }
    }

    /// Open positions with no mark to value them at.
    pub fn unmarked(&self) -> (out: Vec<&Position>)
        requires
            self.wf(),
        ensures
            out@.len() == unmarked_among(self.listed(), self.marked()).len(),
            forall|i: int|
                0 <= i < out@.len() ==> *(#[trigger] out@[i]) == unmarked_among(
                    self.listed(),
                    self.marked(),
                )[i],
    {
        let mut out: Vec<&Position> = Vec::new();
        let n: usize = self.positions.len();
        let mut i: usize = 0;
        assert(self.listed().take(0) =~= Seq::<Position>::empty());
        while i < n
            invariant
                self.wf(),
                n == self.listed().len(),
                i <= n,
                out@.len() == unmarked_among(self.listed().take(i as int), self.marked()).len(),
                forall|j: int|
                    0 <= j < out@.len() ==> *(#[trigger] out@[j]) == unmarked_among(
                        self.listed().take(i as int),
                        self.marked(),
                    )[j],
            decreases n - i,
        {
            let p = self.positions.value_at(i);
            assert(self.listed().take(i + 1).drop_last() =~= self.listed().take(i as int));
            assert(self.listed().take(i + 1).last() == *p);
            if !p.is_flat() && self.mark_of(p).is_none() {
                out.push(p);
            }
            i += 1;
        }
        assert(self.listed().take(n as int) =~= self.listed());
        out
    }

    /// Sum of absolute exposures.
    pub fn gross_exposure(&self) -> (r: Result<Money, BacktestError>)
        requires
            self.wf(),
        ensures
            r == money_total(exposure_items(self.listed(), self.marked())),
            r matches Ok(total) ==> {
                &&& total.0 >= 0
                &&& forall|i: int|
                    0 <= i < self.listed().len() && self.marked().dom().contains(
                        key_of(#[trigger] self.listed()[i]),
                    ) ==> {
                        let p = self.listed()[i];
                        let exposure = self.marked()[key_of(p)].0 * p.quantity.0;
                        &&& 2 * total.0 * SCALE + SCALE >= 2 * exposure
                        &&& 2 * total.0 * SCALE + SCALE >= -2 * exposure
                    }
            },
    {
        let ghost items = exposure_items(self.listed(), self.marked());
        proof {
            gross_exposure_covers_each(self.listed(), self.marked());
        }
        let mut total = Money(0);
        let n: usize = self.positions.len();
        let mut i: usize = 0;
        assert(items.take(0) =~= Seq::<Result<Money, BacktestError>>::empty());
        while i < n
            invariant
                self.wf(),
                n == self.listed().len(),
                i <= n,
                items == exposure_items(self.listed(), self.marked()),
                money_total(items.take(i as int)) == Ok::<Money, BacktestError>(total),
            decreases n - i,
        {
            let position = self.positions.value_at(i);
            proof {
                money_total_step(items, i as int);
                assert(*position == self.listed()[i as int]);
            }
            if let Some(mark) = self.mark_of(position) {
                let exposure = position.exposure(mark)?;
                if exposure.0 == i64::MIN {
                    return Err(BacktestError::Overflow { what: "Money::abs" });
                }
                total = total.checked_add(exposure.abs())?;
            }
            i += 1;
        }
        assert(items.take(n as int) =~= items);
        Ok(total)
    }
}

/// A split multiplies what is held and divides what it cost, each rounded
/// towards zero, and realises nothing. A flat position has nothing to split.
pub proof fn a_split_restates_a_position(p: Position, ratio: Price)
    requires
        ratio.0 > 0,
    ensures
        p.quantity.0 == 0 ==> split_applied(p, ratio) == Ok::<Position, BacktestError>(p),
        split_applied(p, ratio) matches Ok(after) ==> {
            let r = ratio.0 as int;
            &&& after == (Position {
                quantity: after.quantity,
                average_price: after.average_price,
                ..p
            })
            &&& p.quantity.0 > 0 ==> 0 <= after.quantity.0 * SCALE <= p.quantity.0 * r
                < after.quantity.0 * SCALE + SCALE
            &&& p.quantity.0 < 0 ==> after.quantity.0 * SCALE - SCALE < p.quantity.0 * r
                <= after.quantity.0 * SCALE <= 0
            &&& p.quantity.0 != 0 && p.average_price.0 >= 0 ==> 0 <= after.average_price.0 * r
                <= p.average_price.0 * SCALE < after.average_price.0 * r + r
            &&& p.quantity.0 != 0 && p.average_price.0 <= 0 ==> after.average_price.0 * r - r
                < p.average_price.0 * SCALE <= after.average_price.0 * r <= 0
        },
{
    a_split_multiplies_shares_and_divides_prices(
        ratio.0 as int,
        p.quantity.0 as int,
        p.average_price.0 as int,
    );
}

} // verus!
