//! Cash, positions and what moved them.
//!
//! How cash moves depends on what kind of thing was traded. A funded
//! instrument is bought: the notional leaves, or arrives, and the asset is
//! held. A derivative is collateralised: only realised profit and fees touch
//! cash, because nothing was purchased.

use vstd::prelude::*;

use crate::account::MarginModel;
use crate::error::BacktestError;
use crate::instrument::{Instrument, InstrumentId, InstrumentSet, OutcomeId};
use crate::market::{price_at, price_in, Market, Prices};
use crate::order::Fill;
use crate::ordered::SortedMap;
use crate::position::{
    a_value_is_the_nearest, booked, dividend_items, folded, key_of, money_total,
    open_profit_follows_the_mark, replay_is_incremental, unrealized_of, value_of, KeyView,
    Portfolio, Position,
};
use crate::types::{
    a_share_is_near, fits, notional, notional_of, Money, Price, Qty, Side, SCALE,
};

verus! {

/// The account: its cash, its positions and every fill behind them.
pub struct Ledger {
    pub cash: Money,
    pub starting_cash: Money,
    pub portfolio: Portfolio,
    /// Collateral set aside for isolated instruments, outside `cash`.
    pub isolated_collateral: SortedMap<InstrumentId, Money>,
    pub fills: Vec<Fill>,
    /// Net funding paid; negative when it was received.
    pub funding_paid: Money,
    pub dividends_received: Money,
}

/// A total with one amount added.
pub open spec fn money_plus(total: Money, amount: Money) -> Result<Money, BacktestError> {
    if fits(total.0 + amount.0) {
        Ok(Money((total.0 + amount.0) as i64))
    } else {
        Err(BacktestError::Overflow { what: "Money::add" })
    }
}

/// A total with one amount taken off.
pub open spec fn money_less(total: Money, amount: Money) -> Result<Money, BacktestError> {
    if fits(total.0 - amount.0) {
        Ok(Money((total.0 - amount.0) as i64))
    } else {
        Err(BacktestError::Overflow { what: "Money::sub" })
    }
}

/// What a funded fill leaves of cash: less its notional and commission when
/// buying, plus the notional and less the commission when selling.
pub open spec fn funded_cash(cash: Money, fill: Fill) -> Result<Money, BacktestError> {
    match value_of(fill.price.0 as int, fill.quantity.0 as int) {
        Err(e) => Err(e),
        Ok(gross) => {
            if fill.side is Buy && gross.0 == i64::MIN {
                Err(BacktestError::Overflow { what: "Money::neg" })
            } else {
                let delta = if fill.side is Buy {
                    Money((-gross.0) as i64)
                } else {
                    gross
                };
                match money_plus(cash, delta) {
                    Err(e) => Err(e),
                    Ok(moved) => money_less(moved, fill.commission),
                }
            }
        },
    }
}

/// What a collateralised fill leaves of cash: the change in realised profit,
/// which already carries the commission.
pub open spec fn realized_cash(cash: Money, before: Money, after: Money) -> Result<
    Money,
    BacktestError,
> {
    match money_less(after, before) {
        Err(e) => Err(e),
        Ok(change) => money_plus(cash, change),
    }
}

/// The realised profit booked under a key.
pub open spec fn realized_in(held: Map<KeyView, Position>, key: KeyView) -> Money {
    if held.dom().contains(key) {
        held[key].realized_pnl
    } else {
        Money(0)
    }
}

/// The quantity held under a key.
pub open spec fn quantity_in(held: Map<KeyView, Position>, key: KeyView) -> Qty {
    if held.dom().contains(key) {
        held[key].quantity
    } else {
        Qty(0)
    }
}

/// What an isolated instrument's positions ask for at their entry prices.
pub open spec fn initial_items<M: MarginModel>(
    model: M,
    instrument: Instrument,
    positions: Seq<Position>,
) -> Seq<Result<Money, BacktestError>> {
    positions.map_values(
        |p: Position|
            if p.instrument@ == instrument.id@ && p.quantity.0 != 0 {
                model.initial_of(instrument, p.quantity, p.average_price)
            } else {
                Ok(Money(0))
            },
    )
}

/// Collateral posted for an instrument.
pub open spec fn posted_in(collateral: Map<Seq<char>, Money>, instrument: Seq<char>) -> Money {
    if collateral.dom().contains(instrument) {
        collateral[instrument]
    } else {
        Money(0)
    }
}

/// Cash and collateral once an instrument's bucket holds what is required.
pub open spec fn rebalanced(
    cash: Money,
    collateral: Map<Seq<char>, Money>,
    instrument: Seq<char>,
    required: Result<Money, BacktestError>,
) -> Result<(Money, Map<Seq<char>, Money>), BacktestError> {
    match required {
        Err(e) => Err(e),
        Ok(required) => match money_less(required, posted_in(collateral, instrument)) {
            Err(e) => Err(e),
            Ok(delta) => if delta.0 == 0 {
                Ok((cash, collateral))
            } else {
                match money_less(cash, delta) {
                    Err(e) => Err(e),
                    Ok(left) => Ok(
                        (
                            left,
                            if required.0 == 0 {
                                collateral.remove(instrument)
                            } else {
                                collateral.insert(instrument, required)
                            },
                        ),
                    ),
                }
            },
        },
    }
}

/// The price funding is charged on: the oracle where the venue publishes
/// one, else the mark.
pub open spec fn funding_price(oracles: Prices, marks: Prices, key: KeyView) -> Option<Price> {
    match price_in(oracles, key) {
        Some(p) => Some(p),
        None => price_in(marks, key),
    }
}

/// What funding moves over positions: each holder is charged the rate on
/// what it holds, so longs pay shorts when the rate is positive.
pub open spec fn funding_total(
    positions: Seq<Position>,
    instrument: Seq<char>,
    oracles: Prices,
    marks: Prices,
    rate: Price,
) -> Result<Money, BacktestError>
    decreases positions.len(),
{
    if positions.len() == 0 {
        Ok(Money(0))
    } else {
        match funding_total(positions.drop_last(), instrument, oracles, marks, rate) {
            Err(e) => Err(e),
            Ok(total) => {
                let p = positions.last();
                match funding_price(oracles, marks, key_of(p)) {
                    Some(price) if p.instrument@ == instrument && p.quantity.0 != 0 => match value_of(
                        price.0 as int,
                        p.quantity.0 as int,
                    ) {
                        Err(e) => Err(e),
                        Ok(exposure) => match value_of(rate.0 as int, exposure.0 as int) {
                            Err(e) => Err(e),
                            Ok(payment) => money_less(total, payment),
                        },
                    },
                    _ => Ok(total),
                }
            },
        }
    }
}

/// What one marked position adds to equity: its whole value where it was
/// paid for, its unrealised profit where it was only collateralised.
pub open spec fn contribution(p: Position, mark: Price, funded: bool) -> Result<Money, BacktestError> {
    if funded {
        value_of(mark.0 as int, p.quantity.0 as int)
    } else {
        unrealized_of(p, mark)
    }
}

/// Whether opening a position in an instrument moves cash. What the run
/// does not carry is taken to.
pub open spec fn funded_in(instruments: Map<Seq<char>, Instrument>, instrument: Seq<char>) -> bool {
    if instruments.dom().contains(instrument) {
        instruments[instrument].kind.funded()
    } else {
        true
    }
}

/// Position value and unrealised profit over positions that have a mark.
pub open spec fn equity_tally(
    positions: Seq<Position>,
    marks: Prices,
    instruments: Map<Seq<char>, Instrument>,
) -> Result<(Money, Money), BacktestError>
    decreases positions.len(),
{
    if positions.len() == 0 {
        Ok((Money(0), Money(0)))
    } else {
        match equity_tally(positions.drop_last(), marks, instruments) {
            Err(e) => Err(e),
            Ok(tally) => {
                let p = positions.last();
                match price_in(marks, key_of(p)) {
                    Some(mark) if p.quantity.0 != 0 => match contribution(
                        p,
                        mark,
                        funded_in(instruments, p.instrument@),
                    ) {
                        Err(e) => Err(e),
                        Ok(value) => match money_plus(tally.0, value) {
                            Err(e) => Err(e),
                            Ok(values) => match unrealized_of(p, mark) {
                                Err(e) => Err(e),
                                Ok(pnl) => match money_plus(tally.1, pnl) {
                                    Err(e) => Err(e),
                                    Ok(unrealized) => Ok((values, unrealized)),
                                },
                            },
                        },
                    },
                    _ => Ok(tally),
                }
            },
        }
    }
}

/// The whole of what a fill does to the account, before anyone is told.
pub open spec fn settled<M: MarginModel>(
    before: Ledger,
    after: Ledger,
    fill: Fill,
    instrument: Instrument,
    isolating: Option<M>,
) -> bool {
    let key: KeyView = (fill.instrument@, fill.outcome.0);
    let moved = if instrument.kind.funded() {
        funded_cash(before.cash, fill)
    } else {
        realized_cash(
            before.cash,
            realized_in(before.portfolio.held(), key),
            realized_in(after.portfolio.held(), key),
        )
    };
    &&& booked(before.portfolio.held(), fill) == Ok::<Map<KeyView, Position>, BacktestError>(
        after.portfolio.held(),
    )
    &&& moved is Ok
    &&& match isolating {
        None => after.cash == moved->Ok_0 && after.isolated_collateral@
            == before.isolated_collateral@,
        Some(model) => rebalanced(
            moved->Ok_0,
            before.isolated_collateral@,
            instrument.id@,
            money_total(initial_items(model, instrument, after.portfolio.listed())),
        ) == Ok::<(Money, Map<Seq<char>, Money>), BacktestError>(
            (after.cash, after.isolated_collateral@),
        ),
    }
    &&& after.portfolio.marked() == before.portfolio.marked()
    &&& after.fills@ == before.fills@.push(fill)
    &&& after.starting_cash == before.starting_cash
    &&& after.funding_paid == before.funding_paid
    &&& after.dividends_received == before.dividends_received
}

/// Two accounts that hold the same.
pub open spec fn same_account(a: Ledger, b: Ledger) -> bool {
    &&& a.cash == b.cash
    &&& a.starting_cash == b.starting_cash
    &&& a.portfolio.held() == b.portfolio.held()
    &&& a.portfolio.marked() == b.portfolio.marked()
    &&& a.isolated_collateral@ == b.isolated_collateral@
    &&& a.fills@ == b.fills@
    &&& a.funding_paid == b.funding_paid
    &&& a.dividends_received == b.dividends_received
}

/// A fill has one outcome: accounts that hold the same before it hold the
/// same after it.
pub proof fn a_fill_has_one_outcome<M: MarginModel>(
    a: Ledger,
    a2: Ledger,
    b: Ledger,
    b2: Ledger,
    fill: Fill,
    instrument: Instrument,
    isolating: Option<M>,
)
    requires
        a2.wf(),
        b2.wf(),
        same_account(a, b),
        settled(a, a2, fill, instrument, isolating),
        settled(b, b2, fill, instrument, isolating),
    ensures
        same_account(a2, b2),
{
    a2.portfolio.same_positions_list_alike(&b2.portfolio);
}

/// Whether one of a run of accounts comes of the one before by its fill.
pub open spec fn settles<M: MarginModel>(
    accounts: Seq<Ledger>,
    fills: Seq<(Fill, Instrument, Option<M>)>,
    i: int,
) -> bool {
    &&& accounts[i + 1].wf()
    &&& settled(accounts[i], accounts[i + 1], fills[i].0, fills[i].1, fills[i].2)
}

/// Accounts that start out holding the same and take the same fills hold the
/// same at the end: cash, positions, collateral and record.
pub proof fn same_fills_same_account<M: MarginModel>(
    a: Seq<Ledger>,
    b: Seq<Ledger>,
    fills: Seq<(Fill, Instrument, Option<M>)>,
)
    requires
        a.len() == fills.len() + 1,
        b.len() == fills.len() + 1,
        same_account(a[0], b[0]),
        forall|i: int| 0 <= i < fills.len() ==> #[trigger] settles(a, fills, i),
        forall|i: int| 0 <= i < fills.len() ==> #[trigger] settles(b, fills, i),
    ensures
        same_account(a.last(), b.last()),
    decreases fills.len(),
{
    if fills.len() > 0 {
        let n = fills.len() - 1;
        let (p, q, earlier) = (a.drop_last(), b.drop_last(), fills.drop_last());
        assert forall|i: int| 0 <= i < earlier.len() implies #[trigger] settles(p, earlier, i) by {
            assert(settles(a, fills, i));
        }
        assert forall|i: int| 0 <= i < earlier.len() implies #[trigger] settles(q, earlier, i) by {
            assert(settles(b, fills, i));
        }
        same_fills_same_account(p, q, earlier);
        assert(settles(a, fills, n));
        assert(settles(b, fills, n));
        a_fill_has_one_outcome(a[n], a[n + 1], b[n], b[n + 1], fills[n].0, fills[n].1, fills[n].2);
    }
}

/// A fill the account cannot take: a figure does not fit, or the collateral
/// an isolated position needs cannot be worked out or paid.
pub open spec fn cannot_settle<M: MarginModel>(
    before: Ledger,
    fill: Fill,
    instrument: Instrument,
    isolating: Option<M>,
) -> bool {
    let key: KeyView = (fill.instrument@, fill.outcome.0);
    match booked(before.portfolio.held(), fill) {
        Err(_) => true,
        Ok(held) => {
            let moved = if instrument.kind.funded() {
                funded_cash(before.cash, fill)
            } else {
                realized_cash(
                    before.cash,
                    realized_in(before.portfolio.held(), key),
                    realized_in(held, key),
                )
            };
            ||| moved is Err
            ||| isolating matches Some(model) && exists|after: Portfolio| #[trigger]
                after.held() == held && rebalanced(
                    moved->Ok_0,
                    before.isolated_collateral@,
                    instrument.id@,
                    money_total(initial_items(model, instrument, after.listed())),
                ) is Err
        },
    }
}

impl Ledger {
    pub open spec fn wf(&self) -> bool {
        self.portfolio.wf() && self.isolated_collateral.wf()
    }

    /// Positions are exactly what the fills make of them.
    pub open spec fn explained_by_fills(&self) -> bool {
        folded(self.fills@) == Ok::<Map<KeyView, Position>, BacktestError>(self.portfolio.held())
    }

    pub fn new(cash: Money) -> (l: Self)
        ensures
            l.wf(),
            l.cash == cash,
            l.starting_cash == cash,
            l.portfolio.held() == Map::<KeyView, Position>::empty(),
            l.portfolio.listed() == Seq::<Position>::empty(),
            l.portfolio.marked() == Map::<KeyView, Price>::empty(),
            l.isolated_collateral@ == Map::<Seq<char>, Money>::empty(),
            l.fills@ == Seq::<Fill>::empty(),
            l.funding_paid == Money(0),
            l.dividends_received == Money(0),
            l.explained_by_fills(),
    {
        Ledger {
            cash,
            starting_cash: cash,
            portfolio: Portfolio::new(),
            isolated_collateral: SortedMap::new(),
            fills: Vec::new(),
            funding_paid: Money(0),
            dividends_received: Money(0),
        }
    }

    /// The quantity held in one outcome.
    pub fn quantity(&self, instrument: &InstrumentId, outcome: OutcomeId) -> (q: Qty)
        requires
            self.wf(),
        ensures
            q == quantity_in(self.portfolio.held(), (instrument@, outcome.0)),
    {
        match self.portfolio.position(instrument, outcome) {
            Some(p) => p.quantity,
            None => Qty(0),
        }
    }

    fn realized(&self, instrument: &InstrumentId, outcome: OutcomeId) -> (m: Money)
        requires
            self.wf(),
        ensures
            m == realized_in(self.portfolio.held(), (instrument@, outcome.0)),
    {
        match self.portfolio.position(instrument, outcome) {
            Some(p) => p.realized_pnl,
            None => Money(0),
        }
    }

    /// Bring an isolated instrument's posted collateral in line with the
    /// position it backs.
    ///
    /// The bucket is sized at the position's **entry** price and stays
    /// there: sizing it against the mark would quietly top it up from cross
    /// cash as the trade moved against it.
    pub fn rebalance_isolated<M: MarginModel>(
        &mut self,
        model: &M,
        instrument: &Instrument,
    ) -> (r: Result<(), BacktestError>)
        requires
            old(self).wf(),
        ensures
            final(self).wf(),
            *final(self) == (Ledger {
                cash: final(self).cash,
                isolated_collateral: final(self).isolated_collateral,
                ..*old(self)
            }),
            ({
                let done = rebalanced(
                    old(self).cash,
                    old(self).isolated_collateral@,
                    instrument.id@,
                    money_total(initial_items(*model, *instrument, old(self).portfolio.listed())),
                );
                match r {
                    Ok(_) => done == Ok::<(Money, Map<Seq<char>, Money>), BacktestError>(
                        (final(self).cash, final(self).isolated_collateral@),
                    ),
                    Err(e) => done == Err::<(Money, Map<Seq<char>, Money>), BacktestError>(e)
                        && *final(self) == *old(self),
                }
            }),
    {
        let required = self.required(model, instrument)?;
        let posted = match self.isolated_collateral.get(&instrument.id) {
            Some(m) => *m,
            None => Money(0),
        };
        let delta = required.checked_sub(posted)?;
        if delta.is_zero() {
            return Ok(());
        }
        self.cash = self.cash.checked_sub(delta)?;
        if required.is_zero() {
            self.isolated_collateral.remove(&instrument.id);
        } else {
            self.isolated_collateral.insert(instrument.id.clone(), required);
        }
        Ok(())
    }

    fn required<M: MarginModel>(&self, model: &M, instrument: &Instrument) -> (r: Result<
        Money,
        BacktestError,
    >)
        requires
            self.wf(),
        ensures
            r == money_total(initial_items(*model, *instrument, self.portfolio.listed())),
    {
        let ghost items = initial_items(*model, *instrument, self.portfolio.listed());
        let mut total: Result<Money, BacktestError> = Ok(Money(0));
        let n: usize = self.portfolio.len();
        let mut i: usize = 0;
        assert(items.take(0) =~= Seq::<Result<Money, BacktestError>>::empty());
        while i < n
            invariant
                i <= n,
                n == self.portfolio.listed().len(),
                items == initial_items(*model, *instrument, self.portfolio.listed()),
                total == money_total(items.take(i as int)),
            decreases n - i,
        {
            proof {
                assert(items.take(i + 1).drop_last() =~= items.take(i as int));
                assert(items.take(i + 1).last() == items[i as int]);
            }
            let p = self.portfolio.at(i);
            if p.instrument == instrument.id && !p.is_flat() {
                total = match total {
                    Err(e) => Err(e),
                    Ok(sum) => match model.initial_margin(
                        instrument,
                        p.quantity,
                        p.average_price,
                    ) {
                        Err(e) => Err(e),
                        Ok(amount) => sum.checked_add(amount),
                    },
                };
            }
            i += 1;
        }
        assert(items.take(n as int) =~= items);
        total
    }

    /// Book one fill: the position it moves, the cash it moves, and the
    /// collateral set aside for it where the instrument is isolated.
    pub fn settle<M: MarginModel>(
        &mut self,
        fill: Fill,
        instrument: &Instrument,
        isolating: Option<&M>,
    ) -> (r: Result<(), BacktestError>)
        requires
            old(self).wf(),
        ensures
            final(self).wf(),
            r is Ok ==> settled(
                *old(self),
                *final(self),
                fill,
                *instrument,
                match isolating {
                    Some(model) => Some(*model),
                    None => None,
                },
            ),
            r is Ok && old(self).explained_by_fills() ==> final(self).explained_by_fills(),
            r is Err ==> cannot_settle(
                *old(self),
                fill,
                *instrument,
                match isolating {
                    Some(model) => Some(*model),
                    None => None,
                },
            ),
    {
        let before = self.realized(&fill.instrument, fill.outcome);
        self.portfolio.apply(&fill)?;
        if instrument.kind.is_funded() {
            let gross = notional(fill.price, fill.quantity)?;
            let delta = match fill.side {
                Side::Buy => {
                    if gross.0 == i64::MIN {
                        return Err(BacktestError::Overflow { what: "Money::neg" });
                    }
                    Money(-gross.0)
                },
                Side::Sell => gross,
            };
            self.cash = self.cash.checked_add(delta)?.checked_sub(fill.commission)?;
        } else {
            let after = self.realized(&fill.instrument, fill.outcome);
            self.cash = self.cash.checked_add(after.checked_sub(before)?)?;
        }
        if let Some(model) = isolating {
            self.rebalance_isolated(model, instrument)?;
        }
        proof {
            replay_is_incremental(old(self).fills@, fill);
        }
        self.fills.push(fill);
        Ok(())
    }

    /// Settle a funding payment against every open position in an
    /// instrument.
    ///
    /// A position with no price cannot be valued, and is skipped rather
    /// than funded at a guessed one.
    pub fn apply_funding(
        &mut self,
        instrument: &InstrumentId,
        rate: Price,
        market: &Market,
    ) -> (r: Result<(), BacktestError>)
        requires
            old(self).wf(),
            market.wf(),
        ensures
            final(self).wf(),
            *final(self) == (Ledger {
                cash: final(self).cash,
                funding_paid: final(self).funding_paid,
                ..*old(self)
            }),
            ({
                let total = funding_total(
                    old(self).portfolio.listed(),
                    instrument@,
                    market.oracles@,
                    market.marks@,
                    rate,
                );
                match r {
                    Ok(_) => {
                        &&& total is Ok
                        &&& final(self).cash.0 == old(self).cash.0 + total->Ok_0.0
                        &&& final(self).funding_paid.0 == old(self).funding_paid.0 - total->Ok_0.0
                    },
                    Err(e) => {
                        ||| total == Err::<Money, BacktestError>(e)
                        ||| total is Ok && money_plus(old(self).cash, total->Ok_0) == Err::<
                            Money,
                            BacktestError,
                        >(e)
                        ||| total is Ok && money_less(old(self).funding_paid, total->Ok_0) == Err::<
                            Money,
                            BacktestError,
                        >(e)
                    },
                }
            }),
    {
        let mut total: Result<Money, BacktestError> = Ok(Money(0));
        let n: usize = self.portfolio.len();
        let mut i: usize = 0;
        while i < n
            invariant
                i <= n,
                n == self.portfolio.listed().len(),
                *self == *old(self),
                self.wf(),
                market.wf(),
                total == funding_total(
                    self.portfolio.listed().take(i as int),
                    instrument@,
                    market.oracles@,
                    market.marks@,
                    rate,
                ),
            decreases n - i,
        {
            proof {
                let s = self.portfolio.listed();
                assert(s.take(i + 1).drop_last() =~= s.take(i as int));
                assert(s.take(i + 1).last() == s[i as int]);
            }
            let p = self.portfolio.at(i);
            let key = crate::market::key_for(&p.instrument, p.outcome);
            if p.instrument == *instrument && !p.is_flat() {
                let price = match price_at(&market.oracles, &key) {
                    Some(price) => Some(price),
                    None => price_at(&market.marks, &key),
                };
                if let Some(price) = price {
                    total = match total {
                        Err(e) => Err(e),
                        Ok(sum) => match p.exposure(price) {
                            Err(e) => Err(e),
                            Ok(exposure) => match notional(rate, Qty(exposure.0)) {
                                Err(e) => Err(e),
                                Ok(payment) => sum.checked_sub(payment),
                            },
                        },
                    };
                }
            }
            i += 1;
        }
        assert(self.portfolio.listed().take(n as int) =~= self.portfolio.listed());
        let total = total?;
        if !total.is_zero() {
            self.cash = self.cash.checked_add(total)?;
            self.funding_paid = self.funding_paid.checked_sub(total)?;
        }
        Ok(())
    }

    /// Pay a dividend to whoever holds the instrument.
    pub fn apply_dividend(&mut self, instrument: &InstrumentId, per_share: Money) -> (r: Result<
        (),
        BacktestError,
    >)
        requires
            old(self).wf(),
        ensures
            final(self).wf(),
            *final(self) == (Ledger {
                cash: final(self).cash,
                dividends_received: final(self).dividends_received,
                ..*old(self)
            }),
            ({
                let due = money_total(
                    dividend_items(old(self).portfolio.listed(), instrument@, per_share),
                );
                match r {
                    Ok(_) => {
                        &&& due is Ok
                        &&& final(self).cash.0 == old(self).cash.0 + due->Ok_0.0
                        &&& final(self).dividends_received.0 == old(self).dividends_received.0
                            + due->Ok_0.0
                    },
                    Err(e) => {
                        ||| due == Err::<Money, BacktestError>(e)
                        ||| due is Ok && money_plus(old(self).cash, due->Ok_0) == Err::<
                            Money,
                            BacktestError,
                        >(e)
                        ||| due is Ok && money_plus(old(self).dividends_received, due->Ok_0)
                            == Err::<Money, BacktestError>(e)
                    },
                }
            }),
    {
        let due = self.portfolio.dividend_due(instrument, per_share)?;
        if !due.is_zero() {
            self.cash = self.cash.checked_add(due)?;
            self.dividends_received = self.dividends_received.checked_add(due)?;
        }
        Ok(())
    }

    /// Position value and unrealised profit at the marks.
    pub fn valued(&self, market: &Market, instruments: &InstrumentSet) -> (r: Result<
        (Money, Money),
        BacktestError,
    >)
        requires
            self.wf(),
            market.wf(),
            instruments.wf(),
        ensures
            r == equity_tally(self.portfolio.listed(), market.marks@, instruments@),
    {
        let mut tally: Result<(Money, Money), BacktestError> = Ok((Money(0), Money(0)));
        let n: usize = self.portfolio.len();
        let mut i: usize = 0;
        while i < n
            invariant
                i <= n,
                n == self.portfolio.listed().len(),
                self.wf(),
                market.wf(),
                instruments.wf(),
                tally == equity_tally(
                    self.portfolio.listed().take(i as int),
                    market.marks@,
                    instruments@,
                ),
            decreases n - i,
        {
            proof {
                let s = self.portfolio.listed();
                assert(s.take(i + 1).drop_last() =~= s.take(i as int));
                assert(s.take(i + 1).last() == s[i as int]);
            }
            let p = self.portfolio.at(i);
            let key = crate::market::key_for(&p.instrument, p.outcome);
            if let Some(mark) = market.mark(&key) {
                if !p.is_flat() {
                    let funded = match instruments.get(&p.instrument) {
                        Ok(found) => found.kind.is_funded(),
                        Err(_) => true,
                    };
                    let value = if funded {
                        p.exposure(mark)
                    } else {
                        p.unrealized_pnl(mark)
                    };
                    tally = match tally {
                        Err(e) => Err(e),
                        Ok((values, unrealized)) => match value {
                            Err(e) => Err(e),
                            Ok(value) => match values.checked_add(value) {
                                Err(e) => Err(e),
                                Ok(values) => match p.unrealized_pnl(mark) {
                                    Err(e) => Err(e),
                                    Ok(pnl) => match unrealized.checked_add(pnl) {
                                        Err(e) => Err(e),
                                        Ok(unrealized) => Ok((values, unrealized)),
                                    },
                                },
                            },
                        },
                    };
                }
            }
            i += 1;
        }
        assert(self.portfolio.listed().take(n as int) =~= self.portfolio.listed());
        tally
    }
}

/// A funded fill moves exactly its notional and its commission: what the
/// buyer parts with, the commission included, and what the seller receives,
/// less the commission.
pub proof fn funded_fill_moves_its_notional(cash: Money, fill: Fill)
    requires
        funded_cash(cash, fill) is Ok,
    ensures
        (funded_cash(cash, fill)->Ok_0).0 == cash.0 - fill.commission.0 + (match fill.side {
            Side::Buy => -notional_of(fill.price.0 as int, fill.quantity.0 as int),
            Side::Sell => notional_of(fill.price.0 as int, fill.quantity.0 as int),
        }),
{
}

/// Setting collateral aside moves it and nothing else: cash and the bucket
/// together hold what they held before.
pub proof fn rebalancing_conserves_money(
    cash: Money,
    collateral: Map<Seq<char>, Money>,
    instrument: Seq<char>,
    required: Result<Money, BacktestError>,
)
    requires
        rebalanced(cash, collateral, instrument, required) is Ok,
    ensures
        ({
            let after = rebalanced(cash, collateral, instrument, required)->Ok_0;
            &&& after.0.0 + posted_in(after.1, instrument).0 == cash.0 + posted_in(
                collateral,
                instrument,
            ).0
            &&& posted_in(after.1, instrument) == required->Ok_0
        }),
{
}

/// A fill on margin moves no more than profit: cash changes by exactly what
/// realised profit did, and fails only where a figure does not fit.
pub proof fn a_fill_on_margin_moves_its_profit(cash: Money, before: Money, after: Money)
    ensures
        realized_cash(cash, before, after) matches Ok(left) ==> left.0 - cash.0 == after.0
            - before.0,
        i64::MIN <= after.0 - before.0 <= i64::MAX && i64::MIN <= cash.0 + after.0 - before.0
            <= i64::MAX ==> realized_cash(cash, before, after) is Ok,
{
}

/// A funded fill is refused only where a figure does not fit: a buy that the
/// account's figures can hold goes through, and so does a sale.
pub proof fn a_funded_fill_that_fits_goes_through(cash: Money, fill: Fill)
    requires
        -0x1000_0000_0000_0000 <= cash.0 <= 0x1000_0000_0000_0000,
        -0x1000_0000_0000_0000 <= fill.commission.0 <= 0x1000_0000_0000_0000,
        -0x1000_0000_0000_0000 * SCALE <= fill.price.0 * fill.quantity.0 <= 0x1000_0000_0000_0000
            * SCALE,
    ensures
        funded_cash(cash, fill) is Ok,
{
    a_value_is_the_nearest(fill.price.0 as int, fill.quantity.0 as int);
}

/// Funding is built up over the positions in an instrument: each open one is
/// charged the rate on what it is worth at the venue's own price, or at its
/// mark without one, to within half a raw unit in each of the two products.
/// At a positive rate a long pays and a short is paid.
pub proof fn funding_adds_up(
    positions: Seq<Position>,
    instrument: Seq<char>,
    oracles: Prices,
    marks: Prices,
    rate: Price,
)
    ensures
        positions.len() == 0 ==> funding_total(positions, instrument, oracles, marks, rate) == Ok::<
            Money,
            BacktestError,
        >(Money(0)),
        positions.len() > 0 ==> {
            let before = funding_total(positions.drop_last(), instrument, oracles, marks, rate);
            let after = funding_total(positions, instrument, oracles, marks, rate);
            let p = positions.last();
            let key = (p.instrument@, p.outcome.0);
            let price = if oracles.dom().contains(key) {
                oracles[key].0 as int
            } else {
                marks[key].0 as int
            };
            let priced = oracles.dom().contains(key) || marks.dom().contains(key);
            let r = rate.0 as int;
            let due = r * (price * p.quantity.0);
            let slack = 1_000_000_000 * (if r < 0 {
                -r
            } else {
                r
            }) + 1_000_000_000_000_000_000;
            if before is Err || !priced || p.instrument@ != instrument || p.quantity.0 == 0 {
                after == before
            } else {
                after is Ok ==> -slack <= 2 * ((before->Ok_0.0 - after->Ok_0.0)
                    * 1_000_000_000_000_000_000 - due) <= slack
            }
        },
{
    if positions.len() > 0 {
        let p = positions.last();
        let key = (p.instrument@, p.outcome.0);
        let price = if oracles.dom().contains(key) {
            oracles[key].0 as int
        } else {
            marks[key].0 as int
        };
        let q = p.quantity.0 as int;
        a_value_is_the_nearest(price, q);
        let worth = notional_of(price, q);
        a_value_is_the_nearest(rate.0 as int, worth);
        if value_of(rate.0 as int, worth) is Ok {
            let payment = value_of(rate.0 as int, worth)->Ok_0.0 as int;
            a_share_is_near(rate.0 as int, worth, price * q, payment);
        }
    }
}

/// Equity is built up over the positions that are open and marked: what was
/// paid for in full counts at its whole value, what was not at its open
/// profit alone, and open profit is counted beside for both. Each to within
/// half a raw unit.
pub proof fn equity_adds_up(
    positions: Seq<Position>,
    marks: Prices,
    instruments: Map<Seq<char>, Instrument>,
)
    ensures
        positions.len() == 0 ==> equity_tally(positions, marks, instruments) == Ok::<
            (Money, Money),
            BacktestError,
        >((Money(0), Money(0))),
        positions.len() > 0 ==> {
            let before = equity_tally(positions.drop_last(), marks, instruments);
            let after = equity_tally(positions, marks, instruments);
            let p = positions.last();
            let key = (p.instrument@, p.outcome.0);
            let whole = marks[key].0 * p.quantity.0;
            let gain = (marks[key].0 - p.average_price.0) * p.quantity.0;
            let prepaid = !instruments.dom().contains(p.instrument@)
                || instruments[p.instrument@].kind is PredictionMarket
                || instruments[p.instrument@].kind is Spot;
            if before is Err || !marks.dom().contains(key) || p.quantity.0 == 0 {
                after == before
            } else {
                after is Ok ==> {
                    &&& -SCALE <= 2 * ((after->Ok_0.0.0 - before->Ok_0.0.0) * SCALE - (if prepaid {
                        whole
                    } else {
                        gain
                    })) <= SCALE
                    &&& -SCALE <= 2 * ((after->Ok_0.1.0 - before->Ok_0.1.0) * SCALE - gain) <= SCALE
                }
            }
        },
{
    if positions.len() > 0 {
        let p = positions.last();
        let mark = marks[(p.instrument@, p.outcome.0)];
        a_value_is_the_nearest(mark.0 as int, p.quantity.0 as int);
        open_profit_follows_the_mark(p, mark);
    }
}

/// What an isolated instrument's bucket has to hold is built up over its open
/// positions: each adds what the model asks to open it at the price it was
/// opened at, and any other position adds nothing.
pub proof fn buckets_add_up<M: MarginModel>(
    model: M,
    instrument: Instrument,
    positions: Seq<Position>,
)
    ensures
        positions.len() == 0 ==> money_total(initial_items(model, instrument, positions)) == Ok::<
            Money,
            BacktestError,
        >(Money(0)),
        positions.len() > 0 ==> {
            let before = money_total(initial_items(model, instrument, positions.drop_last()));
            let after = money_total(initial_items(model, instrument, positions));
            let p = positions.last();
            let opens = model.initial_of(instrument, p.quantity, p.average_price);
            if before is Err || p.instrument@ != instrument.id@ || p.quantity.0 == 0 {
                after == before
            } else {
                after is Ok ==> opens is Ok && after->Ok_0.0 - before->Ok_0.0 == opens->Ok_0.0
            }
        },
{
    if positions.len() > 0 {
        let items = initial_items(model, instrument, positions);
        assert(items.drop_last() =~= initial_items(model, instrument, positions.drop_last()));
    }
}

} // verus!
