//! How an account stands against its margin, and what a call closes.
//!
//! Cross positions share one pool of collateral. An isolated instrument has
//! a bucket of its own: it is measured against that alone, so a healthy
//! cross account never rescues it and its call never reaches the cross
//! account.

use vstd::prelude::*;
use vstd::string::*;

use crate::account::{
    margin_requirement, margin_state, plus, pointed_to, requirement_of, standing, MarginModel,
    MarginState, Valuation,
};
use crate::checks::market_of;
use crate::currency::{converted, Currency, FxBook, Rates};
use crate::error::{BacktestError, ErrorView};
use crate::instrument::{Instrument, InstrumentId, InstrumentSet, OutcomeId};
use crate::ledger::{posted_in, Ledger};
use crate::market::{key_for, price_in, Market, Prices};
use crate::metrics::{LiquidationPolicy, RiskLimits, SetOperationCosts};
use crate::order::Order;
use crate::ordered::{entries_map_contains, OrderedKey, SortedMap};
use crate::position::{
    key_of, open_profit_follows_the_mark, unrealized_of, KeyView, Position, PositionKey,
};
use crate::request::{SetKindView, SetOperationKind};
use crate::types::{
    divide_trunc, fits, magnitude, saturated, saturating_difference, saturating_sum, wide_product,
    Money, Price, Qty, SCALE,
};

verus! {

/// Instruments margined on collateral of their own.
pub type Isolated = Map<Seq<char>, ()>;

/// What the venue calls orders of its own making.
pub struct Labels {
    pub mint: String,
    pub redeem: String,
    pub convert: String,
    pub twap: String,
    pub liquidation: String,
    pub isolated: String,
    pub delisting: String,
}

impl Labels {
    /// What each label reads.
    pub open spec fn wf(self) -> bool {
        &&& self.mint@ == "mint"@
        &&& self.redeem@ == "redeem"@
        &&& self.convert@ == "convert"@
        &&& self.twap@ == "twap"@
        &&& self.liquidation@ == "liquidation"@
        &&& self.isolated@ == "liquidation:isolated"@
        &&& self.delisting@ == "delisting"@
    }

    /// The label of a set operation.
    pub open spec fn of_set(self, kind: SetKindView) -> String {
        match kind {
            SetKindView::Mint => self.mint,
            SetKindView::Redeem => self.redeem,
            SetKindView::Convert(_) => self.convert,
        }
    }

    pub fn new() -> (r: Self)
        ensures
            r.wf(),
    {
        Labels {
            mint: "mint".to_owned(),
            redeem: "redeem".to_owned(),
            convert: "convert".to_owned(),
            twap: "twap".to_owned(),
            liquidation: "liquidation".to_owned(),
            isolated: "liquidation:isolated".to_owned(),
            delisting: "delisting".to_owned(),
        }
    }

    /// The label of a set operation.
    pub fn for_set(&self, kind: &SetOperationKind) -> (r: &String)
        ensures
            *r == self.of_set(kind@),
    {
        match kind {
            SetOperationKind::Mint => &self.mint,
            SetOperationKind::Redeem => &self.redeem,
            SetOperationKind::Convert { .. } => &self.convert,
        }
    }
}

/// The label asked for, or the venue's own without one.
pub open spec fn labelled(tag: Option<String>, own: String) -> String {
    match tag {
        Some(t) => t,
        None => own,
    }
}

/// The label asked for, or the venue's own without one.
pub fn label_of(tag: &Option<String>, own: &String) -> (r: String)
    ensures
        r == labelled(*tag, *own),
{
    match tag {
        Some(t) => t.clone(),
        None => own.clone(),
    }
}

/// The settings a run is held to. None of them changes while it runs.
pub struct Setup<M> {
    pub instruments: InstrumentSet,
    pub margin: Option<M>,
    pub fx: FxBook,
    pub reporting_currency: Currency,
    pub risk_limits: RiskLimits,
    pub allow_naked_shorts: bool,
    pub set_costs: SetOperationCosts,
    pub record_mark_curve: bool,
    pub liquidation: LiquidationPolicy,
    pub isolated: SortedMap<InstrumentId, ()>,
    pub equity_interval: i64,
    pub labels: Labels,
}

/// Open positions drawing on the shared pool of collateral.
pub open spec fn cross_among(positions: Seq<Position>, isolated: Isolated) -> Seq<Position>
    decreases positions.len(),
{
    if positions.len() == 0 {
        Seq::empty()
    } else {
        let rest = cross_among(positions.drop_last(), isolated);
        let p = positions.last();
        if p.quantity.0 != 0 && !isolated.dom().contains(p.instrument@) {
            rest.push(p)
        } else {
            rest
        }
    }
}

/// An amount added to a running total, in the reporting currency where a
/// rate is known. Where none is, the total is no longer complete: nothing is
/// folded in at par.
pub open spec fn pooled(
    pool: (Money, bool),
    pnl: Money,
    currency: Seq<char>,
    reporting: Seq<char>,
    rates: Rates,
) -> Result<(Money, bool), ErrorView> {
    match converted(rates, pnl, currency, reporting) {
        Some(value) => match plus(pool.0, Ok(value)) {
            Ok(total) => Ok((total, pool.1)),
            Err(e) => Err(e),
        },
        None => Ok((pool.0, false)),
    }
}

/// Unrealised profit over marked positions in the reporting currency, and
/// whether all of it could be converted.
pub open spec fn pooled_pnl(
    positions: Seq<Position>,
    marks: Prices,
    instruments: Map<Seq<char>, Instrument>,
    reporting: Seq<char>,
    rates: Rates,
) -> Result<(Money, bool), ErrorView>
    decreases positions.len(),
{
    if positions.len() == 0 {
        Ok((Money(0), true))
    } else {
        match pooled_pnl(positions.drop_last(), marks, instruments, reporting, rates) {
            Err(e) => Err(e),
            Ok(pool) => {
                let p = positions.last();
                match price_in(marks, key_of(p)) {
                    None => Ok(pool),
                    Some(mark) => match unrealized_of(p, mark) {
                        Err(e) => Err(e@),
                        Ok(pnl) => if instruments.dom().contains(p.instrument@) {
                            pooled(
                                pool,
                                pnl,
                                instruments[p.instrument@].settlement_currency@,
                                reporting,
                                rates,
                            )
                        } else {
                            Err(ErrorView::UnknownInstrument(p.instrument@))
                        },
                    },
                }
            },
        }
    }
}

/// How the shared pool stands: its cash and unrealised profit against what
/// cross positions require.
pub open spec fn cross_standing<M: MarginModel>(
    model: M,
    setup: Setup<M>,
    cash: Money,
    positions: Seq<Position>,
    marks: Prices,
) -> Result<MarginState, ErrorView> {
    let cross = cross_among(positions, setup.isolated@);
    match requirement_of(model, cross, setup.instruments@, marks) {
        Err(e) => Err(e),
        Ok(requirement) => match pooled_pnl(
            cross,
            marks,
            setup.instruments@,
            setup.reporting_currency@,
            setup.fx@,
        ) {
            Err(e) => Err(e),
            Ok((unrealized, complete)) => if fits(cash.0 + unrealized.0) {
                Ok(standing(Money((cash.0 + unrealized.0) as i64), complete, requirement))
            } else {
                Err(ErrorView::Overflow { what: "Money::add"@ })
            },
        },
    }
}

/// How much of a position to close so that the requirement that goes away
/// covers what is missing, rounded up to whole lots.
pub open spec fn closing_size(quantity: Qty, full: Money, need: int, lot: int) -> int {
    let held = magnitude(quantity.0 as int);
    let share = need * held / full.0 as int;
    let wanted = if share <= held {
        share
    } else {
        held
    };
    let step = if lot < 1 {
        1
    } else {
        lot
    };
    let rounded = saturated(wanted + (step - 1)) / step * step;
    if rounded <= held {
        rounded
    } else {
        held
    }
}

/// A position a cross margin call would close, and what it requires.
#[derive(PartialEq, Eq, Debug)]
pub struct Doomed {
    pub instrument: InstrumentId,
    pub outcome: OutcomeId,
    pub quantity: Qty,
    pub requirement: Money,
}

/// The order a call closes positions in: the largest requirement first, then
/// by instrument and outcome.
pub open spec fn closed_before(a: Doomed, b: Doomed) -> bool {
    a.requirement.0 > b.requirement.0 || (a.requirement == b.requirement
        && <PositionKey as OrderedKey>::before(
        (a.instrument@, a.outcome.0),
        (b.instrument@, b.outcome.0),
    ))
}

/// Whether a position is listed among those a call closes.
pub open spec fn dooms<M: MarginModel>(
    model: M,
    instruments: Map<Seq<char>, Instrument>,
    marks: Prices,
    p: Position,
    d: Doomed,
) -> bool {
    &&& d.instrument == p.instrument
    &&& d.outcome == p.outcome
    &&& d.quantity == p.quantity
    &&& marks.dom().contains(key_of(p))
    &&& instruments.dom().contains(p.instrument@)
    &&& model.maintenance_of(instruments[p.instrument@], p.quantity, marks[key_of(p)]) == Ok::<
        Money,
        BacktestError,
    >(d.requirement)
}

/// Whether an entry stands for one of the positions.
pub open spec fn stands_for<M: MarginModel>(
    model: M,
    instruments: Map<Seq<char>, Instrument>,
    marks: Prices,
    cross: Seq<Position>,
    d: Doomed,
) -> bool {
    exists|k: int|
        0 <= k < cross.len() && dooms(model, instruments, marks, #[trigger] cross[k], d)
}

/// Whether a position is among the entries.
pub open spec fn is_listed<M: MarginModel>(
    model: M,
    instruments: Map<Seq<char>, Instrument>,
    marks: Prices,
    p: Position,
    out: Seq<Doomed>,
) -> bool {
    exists|i: int| 0 <= i < out.len() && dooms(model, instruments, marks, p, #[trigger] out[i])
}

/// An isolated instrument whose own collateral is exhausted.
pub struct IsolatedCall {
    pub instrument: InstrumentId,
    pub equity: Money,
    pub maintenance: Money,
    /// Outcome, quantity and mark of each open position.
    pub open: Vec<(OutcomeId, Qty, Price)>,
}

/// What an isolated instrument's open positions come to at their marks.
pub struct IsolatedTally {
    pub unrealized: Money,
    pub maintenance: Money,
    pub open: Seq<(OutcomeId, Qty, Price)>,
}

/// The tally with one position more.
pub open spec fn tallied_with<M: MarginModel>(
    model: M,
    instruments: Map<Seq<char>, Instrument>,
    tally: IsolatedTally,
    p: Position,
    mark: Price,
) -> Result<IsolatedTally, ErrorView> {
    if !instruments.dom().contains(p.instrument@) {
        Err(ErrorView::UnknownInstrument(p.instrument@))
    } else {
        match plus(tally.unrealized, unrealized_of(p, mark)) {
            Err(e) => Err(e),
            Ok(unrealized) => match plus(
                tally.maintenance,
                model.maintenance_of(instruments[p.instrument@], p.quantity, mark),
            ) {
                Err(e) => Err(e),
                Ok(maintenance) => Ok(
                    IsolatedTally {
                        unrealized,
                        maintenance,
                        open: tally.open.push((p.outcome, p.quantity, mark)),
                    },
                ),
            },
        }
    }
}

/// The tally of one isolated instrument over positions.
pub open spec fn isolated_tally<M: MarginModel>(
    model: M,
    instruments: Map<Seq<char>, Instrument>,
    marks: Prices,
    instrument: Seq<char>,
    positions: Seq<Position>,
) -> Result<IsolatedTally, ErrorView>
    decreases positions.len(),
{
    if positions.len() == 0 {
        Ok(IsolatedTally { unrealized: Money(0), maintenance: Money(0), open: Seq::empty() })
    } else {
        match isolated_tally(model, instruments, marks, instrument, positions.drop_last()) {
            Err(e) => Err(e),
            Ok(tally) => {
                let p = positions.last();
                match price_in(marks, key_of(p)) {
                    Some(mark) if p.instrument@ == instrument && p.quantity.0 != 0 => {
                        tallied_with(model, instruments, tally, p, mark)
                    },
                    _ => Ok(tally),
                }
            },
        }
    }
}

/// What an isolated call says.
pub struct CallView {
    pub instrument: InstrumentId,
    pub equity: Money,
    pub maintenance: Money,
    pub open: Seq<(OutcomeId, Qty, Price)>,
}

impl View for IsolatedCall {
    type V = CallView;

    open spec fn view(&self) -> CallView {
        CallView {
            instrument: self.instrument,
            equity: self.equity,
            maintenance: self.maintenance,
            open: self.open@,
        }
    }
}

/// Whether one isolated instrument is called: it has open positions, and its
/// bucket with their unrealised profit is below what they require.
pub open spec fn called<M: MarginModel>(
    model: M,
    instruments: Map<Seq<char>, Instrument>,
    marks: Prices,
    instrument: InstrumentId,
    positions: Seq<Position>,
    posted: Money,
) -> Result<Option<CallView>, ErrorView> {
    match isolated_tally(model, instruments, marks, instrument@, positions) {
        Err(e) => Err(e),
        Ok(tally) => if tally.open.len() == 0 {
            Ok(None)
        } else {
            match plus(posted, Ok(tally.unrealized)) {
                Err(e) => Err(e),
                Ok(equity) => if equity.0 >= tally.maintenance.0 {
                    Ok(None)
                } else {
                    Ok(
                        Some(
                            CallView {
                                instrument,
                                equity,
                                maintenance: tally.maintenance,
                                open: tally.open,
                            },
                        ),
                    )
                },
            }
        },
    }
}

/// The isolated calls over a list of instruments.
pub open spec fn calls_over<M: MarginModel>(
    model: M,
    instruments: Map<Seq<char>, Instrument>,
    marks: Prices,
    collateral: Map<Seq<char>, Money>,
    positions: Seq<Position>,
    names: Seq<InstrumentId>,
) -> Result<Seq<CallView>, ErrorView>
    decreases names.len(),
{
    if names.len() == 0 {
        Ok(Seq::empty())
    } else {
        match calls_over(model, instruments, marks, collateral, positions, names.drop_last()) {
            Err(e) => Err(e),
            Ok(calls) => match called(
                model,
                instruments,
                marks,
                names.last(),
                positions,
                posted_in(collateral, names.last()@),
            ) {
                Err(e) => Err(e),
                Ok(None) => Ok(calls),
                Ok(Some(call)) => Ok(calls.push(call)),
            },
        }
    }
}

/// Calls as what they say.
pub open spec fn call_views(calls: Seq<IsolatedCall>) -> Seq<CallView> {
    calls.map_values(|c: IsolatedCall| c@)
}

/// The names in a set of instruments, in order.
pub open spec fn names_in(isolated: SortedMap<InstrumentId, ()>) -> Seq<InstrumentId> {
    isolated.seq().map_values(|e: (InstrumentId, ())| e.0)
}

impl<M: MarginModel> Setup<M> {
    pub open spec fn wf(&self) -> bool {
        &&& self.instruments.wf()
        &&& self.fx.wf()
        &&& self.isolated.wf()
        &&& self.labels.wf()
    }

    /// Open positions drawing on the shared collateral pool.
    pub fn cross_positions<'a>(&self, ledger: &'a Ledger) -> (out: Vec<&'a Position>)
        requires
            self.wf(),
            ledger.wf(),
        ensures
            pointed_to(out@) == cross_among(ledger.portfolio.listed(), self.isolated@),
    {
        let mut out: Vec<&Position> = Vec::new();
        let n: usize = ledger.portfolio.len();
        let mut i: usize = 0;
        assert(pointed_to(out@) =~= Seq::<Position>::empty());
        while i < n
            invariant
                i <= n,
                n == ledger.portfolio.listed().len(),
                self.wf(),
                pointed_to(out@) == cross_among(
                    ledger.portfolio.listed().take(i as int),
                    self.isolated@,
                ),
            decreases n - i,
        {
            let p = ledger.portfolio.at(i);
            proof {
                let s = ledger.portfolio.listed();
                assert(s.take(i + 1).drop_last() =~= s.take(i as int));
                assert(s.take(i + 1).last() == s[i as int]);
            }
            if !p.is_flat() && !self.isolated.contains_key(&p.instrument) {
                let ghost before = out@;
                out.push(p);
                assert(pointed_to(out@) =~= pointed_to(before).push(*p));
            }
            i += 1;
        }
        assert(ledger.portfolio.listed().take(n as int) =~= ledger.portfolio.listed());
        out
    }

    /// Unrealised profit of the shared pool, and what could not be converted.
    fn pool(&self, cross: &Vec<&Position>, market: &Market) -> (r: Result<
        (Money, Vec<(Currency, Money)>),
        BacktestError,
    >)
        requires
            self.wf(),
            market.wf(),
        ensures
            ({
                let done = pooled_pnl(
                    pointed_to(cross@),
                    market.marks@,
                    self.instruments@,
                    self.reporting_currency@,
                    self.fx@,
                );
                match r {
                    Ok((unrealized, missing)) => done == Ok::<(Money, bool), ErrorView>(
                        (unrealized, missing@.len() == 0),
                    ),
                    Err(e) => done == Err::<(Money, bool), ErrorView>(e@),
                }
            }),
    {
        let mut missing: Vec<(Currency, Money)> = Vec::new();
        let mut total: Result<Money, BacktestError> = Ok(Money(0));
        let n: usize = cross.len();
        let mut i: usize = 0;
        let ghost all = pointed_to(cross@);
        while i < n
            invariant
                i <= n,
                n == cross@.len(),
                all == pointed_to(cross@),
                self.wf(),
                market.wf(),
                ({
                    let done = pooled_pnl(
                        all.take(i as int),
                        market.marks@,
                        self.instruments@,
                        self.reporting_currency@,
                        self.fx@,
                    );
                    match total {
                        Ok(unrealized) => done == Ok::<(Money, bool), ErrorView>(
                            (unrealized, missing@.len() == 0),
                        ),
                        Err(e) => done == Err::<(Money, bool), ErrorView>(e@),
                    }
                }),
            decreases n - i,
        {
            let p: &Position = cross[i];
            proof {
                assert(all.take(i + 1).drop_last() =~= all.take(i as int));
                assert(all.take(i + 1).last() == *p);
            }
            let key = key_for(&p.instrument, p.outcome);
            if let Some(mark) = market.mark(&key) {
                total = match total {
                    Err(e) => Err(e),
                    Ok(sum) => match p.unrealized_pnl(mark) {
                        Err(e) => Err(e),
                        Ok(pnl) => match self.instruments.get(&p.instrument) {
                            Err(e) => Err(e),
                            Ok(found) => match self.fx.convert(
                                pnl,
                                &found.settlement_currency,
                                &self.reporting_currency,
                            ) {
                                Ok(value) => sum.checked_add(value),
                                Err(_) => {
                                    missing.push((found.settlement_currency.clone(), pnl));
                                    Ok(sum)
                                },
                            },
                        },
                    },
                };
            }
            i += 1;
        }
        assert(all.take(n as int) =~= all);
        match total {
            Ok(unrealized) => Ok((unrealized, missing)),
            Err(e) => Err(e),
        }
    }

    /// The account's margin position right now, or `None` when no margin
    /// model is in force: a cash account cannot be called.
    ///
    /// Cash is held in the reporting currency. A position whose currency has
    /// no rate is reported as unconvertible, which suppresses any call:
    /// closing a book on a number known to be partial is worse than waiting
    /// for the rate.
    pub fn margin_state(&self, ledger: &Ledger, market: &Market) -> (r: Result<
        Option<MarginState>,
        BacktestError,
    >)
        requires
            self.wf(),
            ledger.wf(),
            market.wf(),
        ensures
            match self.margin {
                None => r == Ok::<Option<MarginState>, BacktestError>(None),
                Some(model) => {
                    let done = cross_standing(
                        model,
                        *self,
                        ledger.cash,
                        ledger.portfolio.listed(),
                        market.marks@,
                    );
                    match r {
                        Ok(state) => state is Some && done == Ok::<MarginState, ErrorView>(
                            state->Some_0,
                        ),
                        Err(e) => done == Err::<MarginState, ErrorView>(e@),
                    }
                },
            },
    {
        let model = match &self.margin {
            Some(model) => model,
            None => {
                return Ok(None);
            },
        };
        let cross = self.cross_positions(ledger);
        let requirement = margin_requirement(model, &cross, &self.instruments, &market.marks)?;
        let (unrealized, unconvertible) = self.pool(&cross, market)?;
        let collateral = Valuation {
            total: ledger.cash,
            currency: self.reporting_currency.clone(),
            unconvertible,
        };
        match margin_state(&collateral, unrealized, &requirement) {
            Ok(state) => Ok(Some(state)),
            Err(e) => Err(e),
        }
    }

    /// Whether the account can fund a new order.
    ///
    /// An incomplete valuation is no licence to trade freely, but neither is
    /// it grounds to refuse: it is reported and allowed, in the same spirit
    /// as not liquidating on partial information.
    pub fn can_fund(&self, ledger: &Ledger, market: &Market, order: &Order) -> (r: Result<
        bool,
        BacktestError,
    >)
        requires
            self.wf(),
            ledger.wf(),
            market.wf(),
            fits(order.quantity.0 - order.filled.0),
        ensures
            match self.margin {
                None => r == Ok::<bool, BacktestError>(true),
                Some(model) => {
                    let done = cross_standing(
                        model,
                        *self,
                        ledger.cash,
                        ledger.portfolio.listed(),
                        market.marks@,
                    );
                    let mark = price_in(market.marks@, market_of(*order));
                    match done {
                        Err(e) => r matches Err(f) && f@ == e,
                        Ok(state) => if state.incomplete || mark is None {
                            r == Ok::<bool, BacktestError>(true)
                        } else if !self.instruments@.dom().contains(order.instrument@) {
                            r matches Err(f) && f@ == ErrorView::UnknownInstrument(
                                order.instrument@,
                            )
                        } else {
                            match model.initial_of(
                                self.instruments@[order.instrument@],
                                Qty((order.quantity.0 - order.filled.0) as i64),
                                mark->Some_0,
                            ) {
                                Err(e) => r == Err::<bool, BacktestError>(e),
                                Ok(needed) => r == Ok::<bool, BacktestError>(
                                    state.equity.0 - state.initial.0 >= needed.0,
                                ),
                            }
                        },
                    }
                },
            },
    {
        let state = match self.margin_state(ledger, market)? {
            Some(state) => state,
            None => {
                return Ok(true);
            },
        };
        let model = match &self.margin {
            Some(model) => model,
            None => {
                return Ok(true);
            },
        };
        if state.incomplete {
            return Ok(true);
        }
        let key = key_for(&order.instrument, order.outcome);
        let mark = match market.mark(&key) {
            Some(mark) => mark,
            None => {
                return Ok(true);
            },
        };
        let instrument = self.instruments.get(&order.instrument)?;
        let needed = model.initial_margin(instrument, order.remaining(), mark)?;
        Ok(state.equity.0 as i128 - state.initial.0 as i128 >= needed.0 as i128)
    }

    /// The positions a cross margin call closes, in the order it closes
    /// them: the largest requirement first, then by instrument and outcome.
    /// Isolated positions contributed nothing to the call, and are not
    /// listed.
    pub fn doomed(&self, model: &M, ledger: &Ledger, market: &Market) -> (r: Result<
        Vec<Doomed>,
        BacktestError,
    >)
        requires
            self.wf(),
            ledger.wf(),
            market.wf(),
        ensures
            ({
                let cross = cross_among(ledger.portfolio.listed(), self.isolated@);
                match r {
                    Ok(out) => {
                        &&& forall|i: int, j: int|
                            #![trigger out@[i], out@[j]]
                            0 <= i < j < out@.len() ==> closed_before(out@[i], out@[j])
                        &&& forall|i: int|
                            0 <= i < out@.len() ==> stands_for(
                                *model,
                                self.instruments@,
                                market.marks@,
                                cross,
                                #[trigger] out@[i],
                            )
                        &&& forall|k: int|
                            0 <= k < cross.len() && market.marks@.dom().contains(
                                key_of(#[trigger] cross[k]),
                            ) ==> is_listed(
                                *model,
                                self.instruments@,
                                market.marks@,
                                cross[k],
                                out@,
                            )
                    },
                    Err(e) => exists|k: int|
                        0 <= k < cross.len() && market.marks@.dom().contains(
                            key_of(#[trigger] cross[k]),
                        ) && (!self.instruments@.dom().contains(cross[k].instrument@)
                            || model.maintenance_of(
                            self.instruments@[cross[k].instrument@],
                            cross[k].quantity,
                            market.marks@[key_of(cross[k])],
                        ) is Err),
                }
            }),
    {
        let cross = self.cross_positions(ledger);
        let ghost all = cross_among(ledger.portfolio.listed(), self.isolated@);
        let mut ranked: SortedMap<(i64, PositionKey), Doomed> = SortedMap::new();
        let n: usize = cross.len();
        let mut i: usize = 0;
        proof {
            cross_keys_distinct(ledger, self.isolated@);
        }
        while i < n
            invariant
                i <= n,
                n == cross@.len(),
                all == pointed_to(cross@),
                all == cross_among(ledger.portfolio.listed(), self.isolated@),
                forall|a: int, b: int|
                    0 <= a < b < all.len() ==> key_of(#[trigger] all[a]) != key_of(
                        #[trigger] all[b],
                    ),
                self.wf(),
                market.wf(),
                ranked.wf(),
                forall|key: (i64, KeyView)| #[trigger]
                    ranked@.dom().contains(key) ==> key.0 == -1 - ranked@[key].requirement.0
                        && key.1 == (ranked@[key].instrument@, ranked@[key].outcome.0) && exists|
                        k: int,
                    |
                        0 <= k < i && dooms(
                            *model,
                            self.instruments@,
                            market.marks@,
                            #[trigger] all[k],
                            ranked@[key],
                        ),
                forall|k: int|
                    #![trigger all[k]]
                    0 <= k < i && market.marks@.dom().contains(key_of(all[k])) ==> exists|
                        key: (i64, KeyView),
                    | #[trigger]
                        ranked@.dom().contains(key) && dooms(
                            *model,
                            self.instruments@,
                            market.marks@,
                            all[k],
                            ranked@[key],
                        ),
            decreases n - i,
        {
            let p: &Position = cross[i];
            assert(all[i as int] == *p);
            let key = key_for(&p.instrument, p.outcome);
            if let Some(mark) = market.mark(&key) {
                let instrument = match self.instruments.get(&p.instrument) {
                    Ok(found) => found,
                    Err(e) => {
                        assert(market.marks@.dom().contains(key_of(all[i as int])));
                        return Err(e);
                    },
                };
                let requirement = match model.maintenance_margin(instrument, p.quantity, mark) {
                    Ok(m) => m,
                    Err(e) => {
                        assert(market.marks@.dom().contains(key_of(all[i as int])));
                        return Err(e);
                    },
                };
                let entry = Doomed {
                    instrument: p.instrument.clone(),
                    outcome: p.outcome,
                    quantity: p.quantity,
                    requirement,
                };
                let ghost before = ranked@;
                let ghost place: (i64, KeyView) = ((-1 - requirement.0) as i64, key@);
                ranked.insert((-1 - requirement.0, key), entry);
                proof {
                    assert(ranked@ == before.insert(place, entry));
                    assert(dooms(
                        *model,
                        self.instruments@,
                        market.marks@,
                        all[i as int],
                        entry,
                    ));
                    assert forall|key: (i64, KeyView)| #[trigger]
                        ranked@.dom().contains(key) implies key.0 == -1
                        - ranked@[key].requirement.0 && key.1 == (
                        ranked@[key].instrument@,
                        ranked@[key].outcome.0,
                    ) && exists|k: int|
                        0 <= k < i + 1 && dooms(
                            *model,
                            self.instruments@,
                            market.marks@,
                            #[trigger] all[k],
                            ranked@[key],
                        ) by {
                        if key != place {
                            assert(before.dom().contains(key));
                        }
                    }
                    assert forall|k: int|
                        #![trigger all[k]]
                        0 <= k < i + 1 && market.marks@.dom().contains(
                            key_of(all[k]),
                        ) implies exists|key: (i64, KeyView)| #[trigger]
                        ranked@.dom().contains(key) && dooms(
                            *model,
                            self.instruments@,
                            market.marks@,
                            all[k],
                            ranked@[key],
                        ) by {
                        if k < i {
                            let old_key = choose|key: (i64, KeyView)| #[trigger]
                                before.dom().contains(key) && dooms(
                                    *model,
                                    self.instruments@,
                                    market.marks@,
                                    all[k],
                                    before[key],
                                );
                            assert(key_of(all[k]) != key_of(all[i as int]));
                            assert(old_key != place);
                            assert(ranked@.dom().contains(old_key));
                        } else {
                            assert(ranked@.dom().contains(place));
                        }
                    }
                }
            }
            i += 1;
        }
        let mut out: Vec<Doomed> = Vec::new();
        let ghost entries = ranked.seq();
        let mut j: usize = 0;
        while j < ranked.len()
            invariant
                j <= ranked.seq().len(),
                entries == ranked.seq(),
                ranked.wf(),
                out@.len() == j,
                forall|k: int| 0 <= k < j ==> #[trigger] out@[k] == entries[k].1,
            decreases ranked.seq().len() - j,
        {
            let d = ranked.value_at(j);
            out.push(
                Doomed {
                    instrument: d.instrument.clone(),
                    outcome: d.outcome,
                    quantity: d.quantity,
                    requirement: d.requirement,
                },
            );
            j += 1;
        }
        proof {
            entries_map_contains(entries);
            assert forall|i: int, j: int|
                #![trigger out@[i], out@[j]]
                0 <= i < j < out@.len() implies closed_before(out@[i], out@[j]) by {
                assert(<(i64, PositionKey) as OrderedKey>::before(
                    entries[i].0@,
                    entries[j].0@,
                ));
                assert(ranked@.dom().contains(entries[i].0@));
                assert(ranked@.dom().contains(entries[j].0@));
            }
            assert forall|i: int| 0 <= i < out@.len() implies stands_for(
                *model,
                self.instruments@,
                market.marks@,
                all,
                #[trigger] out@[i],
            ) by {
                assert(ranked@.dom().contains(entries[i].0@));
            }
            assert forall|k: int|
                0 <= k < all.len() && market.marks@.dom().contains(
                    key_of(#[trigger] all[k]),
                ) implies is_listed(
                *model,
                self.instruments@,
                market.marks@,
                all[k],
                out@,
            ) by {
                let key = choose|key: (i64, KeyView)| #[trigger]
                    ranked@.dom().contains(key) && dooms(
                        *model,
                        self.instruments@,
                        market.marks@,
                        all[k],
                        ranked@[key],
                    );
                let i = choose|i: int| 0 <= i < entries.len() && (#[trigger] entries[i]).0@ == key;
                assert(out@[i] == entries[i].1);
            }
        }
        Ok(out)
    }

    /// How much of one position to close to restore the maintenance ratio.
    ///
    /// Equity does not move as a position closes at the mark: the unrealised
    /// profit simply becomes realised. So the whole gain is in the
    /// requirement that goes away, and the fraction closed is the one whose
    /// requirement covers the gap, rounded up to whole lots.
    pub fn partial_close_quantity(
        &self,
        state: &MarginState,
        found: &Instrument,
        full: Money,
        quantity: Qty,
    ) -> (r: Result<Qty, BacktestError>)
        ensures
            ({
                let need = saturated(state.maintenance.0 - state.equity.0);
                let size = closing_size(quantity, full, need, found.lot_size.0 as int);
                if need <= 0 || full.0 <= 0 {
                    r == Ok::<Qty, BacktestError>(Qty(0))
                } else if quantity.0 == i64::MIN {
                    r == Err::<Qty, BacktestError>(
                        BacktestError::Overflow { what: "closing size" },
                    )
                } else {
                    r matches Ok(q) && q.0 == (if quantity.0 >= 0 {
                        size
                    } else {
                        -size
                    }) && 0 <= size <= magnitude(quantity.0 as int)
                }
            }),
    {
        let need: i64 = saturating_difference(state.maintenance.0, state.equity.0);
        if need <= 0 || full.0 <= 0 {
            return Ok(Qty(0));
        }
        if quantity.0 == i64::MIN {
            return Err(BacktestError::Overflow { what: "closing size" });
        }
        let held: i64 = if quantity.0 < 0 {
            -quantity.0
        } else {
            quantity.0
        };
        let product: i128 = wide_product(need, held);
        assert(product >= 0) by {
            assert(need * held >= 0) by (nonlinear_arith)
                requires
                    need >= 0,
                    held >= 0,
            ;
        }
        let share: i128 = divide_trunc(product, full.0 as i128);
        assert(share >= 0) by {
            assert(product as int / full.0 as int >= 0) by (nonlinear_arith)
                requires
                    product >= 0,
                    full.0 > 0,
            ;
        }
        let wanted: i64 = if share <= held as i128 {
            share as i64
        } else {
            held
        };
        let lot: i64 = if found.lot_size.0 < 1 {
            1
        } else {
            found.lot_size.0
        };
        let padded: i64 = saturating_sum(wanted, lot - 1);
        let lots: i64 = padded / lot;
        assert(0 <= lots * lot <= padded) by (nonlinear_arith)
            requires
                lots == padded as int / lot as int,
                lot > 0,
                padded >= 0,
        ;
        let rounded: i64 = lots * lot;
        let closing: i64 = if rounded <= held {
            rounded
        } else {
            held
        };
        Ok(
            Qty(
                if quantity.0 >= 0 {
                    closing
                } else {
                    -closing
                },
            ),
        )
    }

    /// What an isolated instrument's positions come to at their marks.
    fn isolated_tally(
        &self,
        model: &M,
        ledger: &Ledger,
        market: &Market,
        instrument: &InstrumentId,
    ) -> (r: Result<(Money, Money, Vec<(OutcomeId, Qty, Price)>), BacktestError>)
        requires
            self.wf(),
            ledger.wf(),
            market.wf(),
        ensures
            ({
                let done = isolated_tally(
                    *model,
                    self.instruments@,
                    market.marks@,
                    instrument@,
                    ledger.portfolio.listed(),
                );
                match r {
                    Ok((unrealized, maintenance, open)) => done == Ok::<IsolatedTally, ErrorView>(
                        IsolatedTally { unrealized, maintenance, open: open@ },
                    ),
                    Err(e) => done == Err::<IsolatedTally, ErrorView>(e@),
                }
            }),
    {
        let mut open: Vec<(OutcomeId, Qty, Price)> = Vec::new();
        let mut sums: Result<(Money, Money), BacktestError> = Ok((Money(0), Money(0)));
        let n: usize = ledger.portfolio.len();
        let mut i: usize = 0;
        let ghost all = ledger.portfolio.listed();
        while i < n
            invariant
                i <= n,
                n == all.len(),
                all == ledger.portfolio.listed(),
                self.wf(),
                ledger.wf(),
                market.wf(),
                ({
                    let done = isolated_tally(
                        *model,
                        self.instruments@,
                        market.marks@,
                        instrument@,
                        all.take(i as int),
                    );
                    match sums {
                        Ok((unrealized, maintenance)) => done == Ok::<IsolatedTally, ErrorView>(
                            IsolatedTally { unrealized, maintenance, open: open@ },
                        ),
                        Err(e) => done == Err::<IsolatedTally, ErrorView>(e@),
                    }
                }),
            decreases n - i,
        {
            let p = ledger.portfolio.at(i);
            proof {
                assert(all.take(i + 1).drop_last() =~= all.take(i as int));
                assert(all.take(i + 1).last() == *p);
            }
            let key = key_for(&p.instrument, p.outcome);
            if p.instrument == *instrument && !p.is_flat() {
                if let Some(mark) = market.mark(&key) {
                    sums = match sums {
                        Err(e) => Err(e),
                        Ok((unrealized, maintenance)) => match self.instruments.get(
                            &p.instrument,
                        ) {
                            Err(e) => Err(e),
                            Ok(found) => match p.unrealized_pnl(mark) {
                                Err(e) => Err(e),
                                Ok(pnl) => match unrealized.checked_add(pnl) {
                                    Err(e) => Err(e),
                                    Ok(unrealized) => match model.maintenance_margin(
                                        found,
                                        p.quantity,
                                        mark,
                                    ) {
                                        Err(e) => Err(e),
                                        Ok(needed) => match maintenance.checked_add(needed) {
                                            Err(e) => Err(e),
                                            Ok(maintenance) => {
                                                open.push((p.outcome, p.quantity, mark));
                                                Ok((unrealized, maintenance))
                                            },
                                        },
                                    },
                                },
                            },
                        },
                    };
                }
            }
            i += 1;
        }
        assert(all.take(n as int) =~= all);
        match sums {
            Ok((unrealized, maintenance)) => Ok((unrealized, maintenance, open)),
            Err(e) => Err(e),
        }
    }

    /// Every isolated instrument whose own collateral is exhausted.
    ///
    /// Decided in full before anything is closed: closing a position changes
    /// the state every later decision would read, and a margin call is
    /// evaluated against the state that triggered it.
    pub fn isolated_calls(&self, model: &M, ledger: &Ledger, market: &Market) -> (r: Result<
        Vec<IsolatedCall>,
        BacktestError,
    >)
        requires
            self.wf(),
            ledger.wf(),
            market.wf(),
        ensures
            ({
                let done = calls_over(
                    *model,
                    self.instruments@,
                    market.marks@,
                    ledger.isolated_collateral@,
                    ledger.portfolio.listed(),
                    names_in(self.isolated),
                );
                match r {
                    Ok(calls) => done == Ok::<Seq<CallView>, ErrorView>(call_views(calls@)),
                    Err(e) => done == Err::<Seq<CallView>, ErrorView>(e@),
                }
            }),
    {
        let mut calls: Vec<IsolatedCall> = Vec::new();
        let mut fault: Option<BacktestError> = None;
        let n: usize = self.isolated.len();
        let mut i: usize = 0;
        let ghost names = names_in(self.isolated);
        assert(call_views(calls@) =~= Seq::<CallView>::empty());
        while i < n
            invariant
                i <= n,
                n == self.isolated.seq().len(),
                names == names_in(self.isolated),
                self.wf(),
                ledger.wf(),
                market.wf(),
                ({
                    let done = calls_over(
                        *model,
                        self.instruments@,
                        market.marks@,
                        ledger.isolated_collateral@,
                        ledger.portfolio.listed(),
                        names.take(i as int),
                    );
                    match fault {
                        None => done == Ok::<Seq<CallView>, ErrorView>(call_views(calls@)),
                        Some(e) => done == Err::<Seq<CallView>, ErrorView>(e@),
                    }
                }),
            decreases n - i,
        {
            let instrument = self.isolated.key_at(i);
            proof {
                assert(names.take(i + 1).drop_last() =~= names.take(i as int));
                assert(names.take(i + 1).last() == *instrument);
            }
            if fault.is_none() {
                match self.isolated_tally(model, ledger, market, instrument) {
                    Err(e) => {
                        fault = Some(e);
                    },
                    Ok((unrealized, maintenance, open)) => {
                        if open.len() > 0 {
                            let posted = match ledger.isolated_collateral.get(instrument) {
                                Some(m) => *m,
                                None => Money(0),
                            };
                            match posted.checked_add(unrealized) {
                                Err(e) => {
                                    fault = Some(e);
                                },
                                Ok(equity) => {
                                    if equity.0 < maintenance.0 {
                                        let ghost before = calls@;
                                        let call = IsolatedCall {
                                            instrument: instrument.clone(),
                                            equity,
                                            maintenance,
                                            open,
                                        };
                                        let ghost said = call@;
                                        calls.push(call);
                                        assert(call_views(calls@) =~= call_views(before).push(
                                            said,
                                        ));
                                    }
                                },
                            }
                        }
                    },
                }
            }
            i += 1;
        }
        assert(names.take(n as int) =~= names);
        match fault {
            Some(e) => Err(e),
            None => Ok(calls),
        }
    }
}

/// Cross positions are in different markets.
proof fn cross_keys_distinct(ledger: &Ledger, isolated: Isolated)
    requires
        ledger.wf(),
    ensures
        ({
            let cross = cross_among(ledger.portfolio.listed(), isolated);
            forall|a: int, b: int|
                0 <= a < b < cross.len() ==> key_of(#[trigger] cross[a]) != key_of(
                    #[trigger] cross[b],
                )
        }),
{
    ledger.portfolio.listed_is_sorted();
    let all = ledger.portfolio.listed();
    assert forall|i: int, j: int| 0 <= i < j < all.len() implies key_of(#[trigger] all[i])
        != key_of(#[trigger] all[j]) by {
        <PositionKey as OrderedKey>::before_irreflexive(key_of(all[i]));
    }
    cross_distinct(all, isolated);
}

proof fn cross_distinct(positions: Seq<Position>, isolated: Isolated)
    requires
        forall|i: int, j: int|
            0 <= i < j < positions.len() ==> key_of(#[trigger] positions[i]) != key_of(
                #[trigger] positions[j],
            ),
    ensures
        ({
            let cross = cross_among(positions, isolated);
            &&& forall|a: int, b: int|
                0 <= a < b < cross.len() ==> key_of(#[trigger] cross[a]) != key_of(
                    #[trigger] cross[b],
                )
            &&& forall|a: int|
                #![trigger cross[a]]
                0 <= a < cross.len() ==> exists|i: int|
                    0 <= i < positions.len() && (#[trigger] positions[i]) == cross[a]
                        && positions[i].quantity.0 != 0 && !isolated.dom().contains(
                        positions[i].instrument@,
                    )
        }),
    decreases positions.len(),
{
    if positions.len() > 0 {
        let rest = positions.drop_last();
        assert forall|i: int, j: int| 0 <= i < j < rest.len() implies key_of(#[trigger] rest[i])
            != key_of(#[trigger] rest[j]) by {
            assert(rest[i] == positions[i] && rest[j] == positions[j]);
        }
        cross_distinct(rest, isolated);
        let before = cross_among(rest, isolated);
        let cross = cross_among(positions, isolated);
        let last = positions.len() - 1;
        assert forall|a: int|
            #![trigger cross[a]]
            0 <= a < cross.len() implies exists|i: int|
            0 <= i < positions.len() && (#[trigger] positions[i]) == cross[a]
                && positions[i].quantity.0 != 0 && !isolated.dom().contains(
                positions[i].instrument@,
            ) by {
            if a < before.len() {
                assert(cross[a] == before[a]);
                let i = choose|i: int|
                    0 <= i < rest.len() && (#[trigger] rest[i]) == before[a]
                        && rest[i].quantity.0 != 0 && !isolated.dom().contains(
                        rest[i].instrument@,
                    );
                assert(positions[i] == rest[i]);
            } else {
                assert(positions[last] == cross[a]);
            }
        }
        assert forall|a: int, b: int| 0 <= a < b < cross.len() implies key_of(#[trigger] cross[a])
            != key_of(#[trigger] cross[b]) by {
            assert(cross[a] == before[a]);
            if b < before.len() {
                assert(cross[b] == before[b]);
            } else {
                let i = choose|i: int| 0 <= i < rest.len() && (#[trigger] rest[i]) == before[a];
                assert(positions[i] == rest[i]);
                assert(cross[b] == positions[last]);
            }
        }
    }
}

/// A cross margin call never touches an isolated instrument, and an isolated
/// one draws nothing from the shared pool.
pub proof fn isolation_holds_both_ways(positions: Seq<Position>, isolated: Isolated)
    ensures
        forall|a: int|
            0 <= a < cross_among(positions, isolated).len() ==> !isolated.dom().contains(
                (#[trigger] cross_among(positions, isolated)[a]).instrument@,
            ) && cross_among(positions, isolated)[a].quantity.0 != 0,
    decreases positions.len(),
{
    if positions.len() > 0 {
        isolation_holds_both_ways(positions.drop_last(), isolated);
        let before = cross_among(positions.drop_last(), isolated);
        let cross = cross_among(positions, isolated);
        assert forall|a: int| 0 <= a < cross.len() implies !isolated.dom().contains(
            (#[trigger] cross[a]).instrument@,
        ) && cross[a].quantity.0 != 0 by {
            if a < before.len() {
                assert(cross[a] == before[a]);
            }
        }
    }
}

/// What draws on the shared pool is every open position that is not isolated
/// and no other, in the order they are listed.
pub proof fn the_shared_pool_is_what_is_not_isolated(positions: Seq<Position>, isolated: Isolated)
    ensures
        cross_among(positions, isolated) == positions.filter(
            |p: Position| p.quantity.0 != 0 && !isolated.dom().contains(p.instrument@),
        ),
    decreases positions.len(),
{
    reveal(Seq::filter);
    if positions.len() > 0 {
        the_shared_pool_is_what_is_not_isolated(positions.drop_last(), isolated);
    }
}

/// A call closes no more of a position than it has to. What it closes is
/// never more than is held, comes in whole lots unless it is all of it, gives
/// back the share that is needed of the position's requirement, to within a
/// raw unit of quantity, and would not without its last lot.
pub proof fn a_call_closes_what_it_needs(quantity: Qty, full: Money, need: int, lot: int)
    requires
        full.0 > 0,
        need >= 0,
        lot >= 0,
        (if quantity.0 < 0 {
            -quantity.0
        } else {
            quantity.0 as int
        }) + lot <= i64::MAX,
    ensures
        ({
            let held = if quantity.0 < 0 {
                -quantity.0
            } else {
                quantity.0 as int
            };
            let step = if lot < 1 {
                1
            } else {
                lot
            };
            let closing = closing_size(quantity, full, need, lot);
            &&& 0 <= closing <= held
            &&& closing == held || closing % step == 0
            &&& closing == held || (closing + 1) * full.0 > need * held
            &&& closing > 0 ==> (closing - step) * full.0 < need * held
        }),
{
    let held = magnitude(quantity.0 as int);
    let step = if lot < 1 {
        1
    } else {
        lot
    };
    let f = full.0 as int;
    let x = need * held;
    assert(x >= 0) by (nonlinear_arith)
        requires
            x == need * held,
            need >= 0,
            held >= 0,
    ;
    let share = x / f;
    vstd::arithmetic::div_mod::lemma_fundamental_div_mod(x, f);
    assert(share >= 0 && share * f <= x < (share + 1) * f) by (nonlinear_arith)
        requires
            f > 0,
            x >= 0,
            x == f * share + x % f,
            0 <= x % f < f,
    ;
    let wanted = if share <= held {
        share
    } else {
        held
    };
    let up = wanted + (step - 1);
    let lots = up / step;
    vstd::arithmetic::div_mod::lemma_fundamental_div_mod(up, step);
    let rounded = lots * step;
    assert(rounded == step * lots) by (nonlinear_arith)
        requires
            rounded == lots * step,
    ;
    assert(wanted <= rounded < wanted + step);
    vstd::arithmetic::div_mod::lemma_mod_multiples_basic(lots, step);
    let closing = closing_size(quantity, full, need, lot);
    if closing != held {
        assert((closing + 1) * f > x) by (nonlinear_arith)
            requires
                closing >= share,
                f > 0,
                x < (share + 1) * f,
        ;
    }
    if closing > 0 {
        assert((closing - step) * f < x) by (nonlinear_arith)
            requires
                closing - step <= share - 1,
                f > 0,
                share * f <= x,
        ;
    }
}

/// A call closes the position that asks for most first.
pub proof fn the_largest_requirement_closes_first(a: Doomed, b: Doomed)
    ensures
        a.requirement.0 > b.requirement.0 ==> closed_before(a, b) && !closed_before(b, a),
        a.requirement == b.requirement && a.instrument@ == b.instrument@ && a.outcome.0
            < b.outcome.0 ==> closed_before(a, b) && !closed_before(b, a),
{
    crate::text::text_before_irreflexive(a.instrument@);
}

/// The open profit of a pool is built up over its positions: one that is
/// marked adds its open profit in the reporting currency where that can be
/// said, and where it cannot the pool is incomplete for good and adds
/// nothing. One without a mark is passed over.
pub proof fn pooled_profit_adds_up(
    positions: Seq<Position>,
    marks: Prices,
    instruments: Map<Seq<char>, Instrument>,
    reporting: Seq<char>,
    rates: Rates,
)
    ensures
        positions.len() == 0 ==> pooled_pnl(positions, marks, instruments, reporting, rates)
            == Ok::<(Money, bool), ErrorView>((Money(0), true)),
        positions.len() > 0 ==> {
            let before = pooled_pnl(positions.drop_last(), marks, instruments, reporting, rates);
            let after = pooled_pnl(positions, marks, instruments, reporting, rates);
            let p = positions.last();
            let key = (p.instrument@, p.outcome.0);
            if before is Err || !marks.dom().contains(key) {
                after == before
            } else {
                after is Ok ==> {
                    let pnl = unrealized_of(p, marks[key]);
                    &&& pnl is Ok
                    &&& instruments.dom().contains(p.instrument@)
                    &&& match converted(
                        rates,
                        pnl->Ok_0,
                        instruments[p.instrument@].settlement_currency@,
                        reporting,
                    ) {
                        Some(value) => after->Ok_0.0.0 - before->Ok_0.0.0 == value.0
                            && after->Ok_0.1 == before->Ok_0.1,
                        None => after->Ok_0.0 == before->Ok_0.0 && !after->Ok_0.1,
                    }
                }
            }
        },
{
}

/// An isolated instrument's tally is built up over its open, marked
/// positions and no others: each adds its open profit, to within half a raw
/// unit, and what it takes to keep it, and is listed.
pub proof fn isolated_tallies_add_up<M: MarginModel>(
    model: M,
    instruments: Map<Seq<char>, Instrument>,
    marks: Prices,
    instrument: Seq<char>,
    positions: Seq<Position>,
)
    ensures
        positions.len() == 0 ==> (isolated_tally(
            model,
            instruments,
            marks,
            instrument,
            positions,
        ) matches Ok(t) && t.unrealized.0 == 0 && t.maintenance.0 == 0 && t.open.len() == 0),
        positions.len() > 0 ==> {
            let before = isolated_tally(
                model,
                instruments,
                marks,
                instrument,
                positions.drop_last(),
            );
            let after = isolated_tally(model, instruments, marks, instrument, positions);
            let p = positions.last();
            let key = (p.instrument@, p.outcome.0);
            if before is Err || !marks.dom().contains(key) || p.instrument@ != instrument
                || p.quantity.0 == 0 {
                after == before
            } else {
                after is Ok ==> {
                    let gain = (marks[key].0 - p.average_price.0) * p.quantity.0;
                    let keeps = model.maintenance_of(
                        instruments[instrument],
                        p.quantity,
                        marks[key],
                    );
                    &&& instruments.dom().contains(instrument)
                    &&& -SCALE <= 2 * ((after->Ok_0.unrealized.0 - before->Ok_0.unrealized.0) * SCALE
                        - gain) <= SCALE
                    &&& keeps is Ok && after->Ok_0.maintenance.0 - before->Ok_0.maintenance.0
                        == keeps->Ok_0.0
                    &&& after->Ok_0.open == before->Ok_0.open.push(
                        (p.outcome, p.quantity, marks[key]),
                    )
                }
            }
        },
{
    if positions.len() > 0 {
        let p = positions.last();
        open_profit_follows_the_mark(p, marks[(p.instrument@, p.outcome.0)]);
    }
}

/// An isolated instrument is called exactly where it has an open position and
/// what is posted for it, with its open profit, is below what it takes to
/// keep: one that holds just that is left alone.
pub proof fn a_call_comes_below_maintenance<M: MarginModel>(
    model: M,
    instruments: Map<Seq<char>, Instrument>,
    marks: Prices,
    instrument: InstrumentId,
    positions: Seq<Position>,
    posted: Money,
)
    ensures
        called(model, instruments, marks, instrument, positions, posted) matches Ok(call) ==> {
            let tally = isolated_tally(model, instruments, marks, instrument@, positions)->Ok_0;
            let equity = posted.0 + tally.unrealized.0;
            &&& call is Some <==> tally.open.len() > 0 && equity < tally.maintenance.0
            &&& call matches Some(c) ==> {
                &&& c.instrument == instrument
                &&& c.equity.0 == equity
                &&& c.maintenance == tally.maintenance
                &&& c.open == tally.open
            }
        },
{
}

/// The shared pool stands on the account's cash and the open profit of what
/// draws on it, against what those positions ask for.
pub proof fn the_pool_stands_on_cash_and_profit<M: MarginModel>(
    model: M,
    setup: Setup<M>,
    cash: Money,
    positions: Seq<Position>,
    marks: Prices,
)
    ensures
        cross_standing(model, setup, cash, positions, marks) matches Ok(state) ==> {
            let cross = positions.filter(
                |p: Position| p.quantity.0 != 0 && !setup.isolated@.dom().contains(p.instrument@),
            );
            let asked = requirement_of(model, cross, setup.instruments@, marks);
            let profit = pooled_pnl(
                cross,
                marks,
                setup.instruments@,
                setup.reporting_currency@,
                setup.fx@,
            );
            &&& asked is Ok && profit is Ok
            &&& state.equity.0 == cash.0 + profit->Ok_0.0.0
            &&& state.initial == asked->Ok_0.initial
            &&& state.maintenance == asked->Ok_0.maintenance
            &&& state.incomplete <==> !profit->Ok_0.1 || asked->Ok_0.unmarked.len() > 0
            &&& state.liquidatable ==> !state.incomplete && state.equity.0 < state.maintenance.0
        },
{
    the_shared_pool_is_what_is_not_isolated(positions, setup.isolated@);
}

} // verus!
