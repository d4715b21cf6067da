//! Putting an engine together.

use vstd::prelude::*;
use vstd::string::*;

use crate::account::{CashMargin, Liquidation, MarginModel};
use crate::book::OrderBook;
use crate::clock::{Clock, TimerEntry};
use crate::currency::{Currency, FxBook, Rates};
use crate::desk::{Desk, InFlightAction};
use crate::engine::{Board, Engine, Journal, DEFAULT_EQUITY_INTERVAL_NANOS};
use crate::error::{says, BacktestError};
use crate::execution::{ExecutionClient, ExecutionCommand, SimulatedExecution};
use crate::instrument::{Instrument, InstrumentId, InstrumentSet};
use crate::ledger::Ledger;
use crate::margin::{Labels, Setup};
use crate::market::Market;
use crate::metrics::{
    no_counts, EquityPoint, LiquidationPolicy, MarkSource, RiskLimits, RunMetrics,
    SetOperationCosts,
};
use crate::models::{BookFills, FeeModel, FillModel, LatencyModel, NoFees, NoLatency};
use crate::order::{Fill, Order, OrderId};
use crate::ordered::SortedMap;
use crate::pairing::in_order_one_way;
use crate::position::{KeyView, Position};
use crate::request::{Forecast, MarkPoint, SetOperation, TwapProgress};
use crate::strategy::Exchange;
use crate::text::{str_before, text_before, text_before_irreflexive, text_before_transitive};
use crate::types::{Money, Price, UnixNanos};

verus! {

/// Everything a run needs to know before it starts.
pub struct EngineBuilder<F, L, T, M, X> {
    pub instruments: InstrumentSet,
    pub starting_cash: Money,
    pub start: UnixNanos,
    pub fee_model: F,
    pub fill_model: L,
    pub latency_model: T,
    pub equity_interval: i64,
    pub margin: Option<M>,
    pub fx: FxBook,
    pub execution: X,
    /// The currency cash is held and results are reported in. Instruments
    /// settling elsewhere need a rate to join it.
    pub reporting_currency: Currency,
    pub risk_limits: RiskLimits,
    pub allow_naked_shorts: bool,
    pub set_costs: SetOperationCosts,
    pub record_mark_curve: bool,
    pub mark_source: MarkSource,
    pub liquidation: LiquidationPolicy,
    pub isolated: SortedMap<InstrumentId, ()>,
    /// What the venue calls orders of its own making.
    pub labels: Labels,
}

/// An engine with nothing set up beyond its instruments.
pub type PlainBuilder = EngineBuilder<NoFees, BookFills, NoLatency, CashMargin, SimulatedExecution>;

/// An engine with nothing set up beyond its instruments.
pub type PlainEngine = Engine<NoFees, BookFills, NoLatency, CashMargin, SimulatedExecution>;

/// The order expiries are dealt with: by instant, and by name within one.
pub open spec fn expires_before(a: (i64, InstrumentId), b: (i64, InstrumentId)) -> bool {
    a.0 < b.0 || (a.0 == b.0 && text_before(a.1@, b.1@))
}

/// Whether an entry says when one of a list of instruments expires.
pub open spec fn is_expiry(listed: Seq<Instrument>, e: (i64, InstrumentId), i: int) -> bool {
    &&& 0 <= i < listed.len()
    &&& listed[i].id == e.1
    &&& listed[i].expiration == Some(UnixNanos(e.0))
}

/// Whether an instrument's expiry, if it has one, is among a list.
pub open spec fn expiry_listed(expiries: Seq<(i64, InstrumentId)>, instrument: Instrument) -> bool {
    match instrument.expiration {
        None => true,
        Some(at) => exists|k: int|
            0 <= k < expiries.len() && (#[trigger] expiries[k]).0 == at.0 && expiries[k].1
                == instrument.id,
    }
}

/// Whether an entry stands for one of a list of instruments.
pub open spec fn some_expiry(listed: Seq<Instrument>, e: (i64, InstrumentId)) -> bool {
    exists|i: int| #[trigger] is_expiry(listed, e, i)
}

/// Expiries in the order they fall due: one entry for each instrument that
/// expires, and no other.
pub open spec fn expiries_of(expiries: Seq<(i64, InstrumentId)>, listed: Seq<Instrument>) -> bool {
    &&& forall|i: int, j: int|
        #![trigger expiries[i], expiries[j]]
        0 <= i < j < expiries.len() ==> expires_before(expiries[i], expiries[j])
    &&& forall|k: int| 0 <= k < expiries.len() ==> some_expiry(listed, #[trigger] expiries[k])
    &&& forall|i: int|
        0 <= i < listed.len() ==> expiry_listed(expiries, #[trigger] listed[i])
}

fn falls_due_before(a: &(i64, InstrumentId), b: &(i64, InstrumentId)) -> (r: bool)
    ensures
        r == expires_before(*a, *b),
{
    a.0 < b.0 || (a.0 == b.0 && str_before(a.1.as_str(), b.1.as_str()))
}

proof fn due_in_turn(a: (i64, InstrumentId), b: (i64, InstrumentId), c: (i64, InstrumentId))
    requires
        expires_before(a, b),
        expires_before(b, c),
    ensures
        expires_before(a, c),
{
    if a.0 == c.0 {
        text_before_transitive(a.1@, b.1@, c.1@);
    }
}

/// Add one expiry to a list in order.
fn insert_expiry(list: &mut Vec<(i64, InstrumentId)>, item: (i64, InstrumentId))
    requires
        forall|i: int, j: int|
            #![trigger old(list)@[i], old(list)@[j]]
            0 <= i < j < old(list)@.len() ==> expires_before(old(list)@[i], old(list)@[j]),
        forall|i: int| 0 <= i < old(list)@.len() ==> (#[trigger] old(list)@[i]).1@ != item.1@,
    ensures
        exists|at: int|
            0 <= at <= old(list)@.len() && final(list)@ == #[trigger] old(list)@.insert(at, item),
        forall|i: int, j: int|
            #![trigger final(list)@[i], final(list)@[j]]
            0 <= i < j < final(list)@.len() ==> expires_before(final(list)@[i], final(list)@[j]),
{
    let ghost first = list@;
    let mut at: usize = 0;
    while at < list.len() && falls_due_before(&list[at], &item)
        invariant
            list@ == first,
            at <= first.len(),
            forall|i: int| 0 <= i < at ==> expires_before(#[trigger] first[i], item),
        decreases first.len() - at,
    {
        at += 1;
    }
    list.insert(at, item);
    proof {
        if at < first.len() {
            crate::text::text_before_total(first[at as int].1@, item.1@);
        }
        assert forall|i: int, j: int|
            #![trigger list@[i], list@[j]]
            0 <= i < j < list@.len() implies expires_before(list@[i], list@[j]) by {
            if i < at && j > at {
                assert(list@[i] == first[i]);
                assert(list@[j] == first[j - 1]);
            } else if i < at && j < at {
                assert(list@[i] == first[i]);
                assert(list@[j] == first[j]);
            } else if i > at {
                assert(list@[i] == first[i - 1]);
                assert(list@[j] == first[j - 1]);
            } else if i == at {
                assert(list@[j] == first[j - 1]);
                if j - 1 > at {
                    due_in_turn(item, first[at as int], first[j - 1]);
                }
            } else {
                assert(list@[i] == first[i]);
            }
        }
    }
}

proof fn expiries_there_too(
    x: Seq<(i64, InstrumentId)>,
    y: Seq<(i64, InstrumentId)>,
    listed: Seq<Instrument>,
)
    requires
        expiries_of(x, listed),
        expiries_of(y, listed),
    ensures
        forall|e: (i64, InstrumentId)| #[trigger] x.contains(e) ==> y.contains(e),
{
    assert forall|e: (i64, InstrumentId)| #[trigger] x.contains(e) implies y.contains(e) by {
        let k = choose|k: int| 0 <= k < x.len() && x[k] == e;
        assert(some_expiry(listed, x[k]));
        let i = choose|i: int| #[trigger] is_expiry(listed, e, i);
        assert(expiry_listed(y, listed[i]));
        let j = choose|j: int|
            0 <= j < y.len() && (#[trigger] y[j]).0 == e.0 && y[j].1 == listed[i].id;
        assert(y[j] == e);
    }
}

/// When each instrument stops trading, in the order they do.
fn collect_expiries(instruments: &InstrumentSet) -> (out: Vec<(i64, InstrumentId)>)
    requires
        instruments.wf(),
    ensures
        expiries_of(out@, instruments.listed()),
{
    let ghost listed = instruments.listed();
    let mut out: Vec<(i64, InstrumentId)> = Vec::new();
    let n: usize = instruments.len();
    let mut i: usize = 0;
    while i < n
        invariant
            n == listed.len(),
            i <= n,
            instruments.wf(),
            listed == instruments.listed(),
            expiries_of(out@, listed.take(i as int)),
        decreases n - i,
    {
        let instrument = instruments.at(i);
        let ghost before = out@;
        let ghost short = listed.take(i as int);
        let ghost long = listed.take(i + 1);
        proof {
            instruments.listed_is_sorted();
            assert forall|k: int| 0 <= k < before.len() implies (#[trigger] before[k]).1@
                != instrument.id@ by {
                assert(some_expiry(short, before[k]));
                let m = choose|m: int| #[trigger] is_expiry(short, before[k], m);
                assert(short[m] == listed[m]);
                assert(text_before(listed[m].id@, listed[i as int].id@));
                text_before_irreflexive(instrument.id@);
            }
        }
        if let Some(at) = instrument.expiration {
            let item = (at.0, instrument.id.clone());
            let ghost entry = item;
            insert_expiry(&mut out, item);
            proof {
                let place = choose|place: int|
                    0 <= place <= before.len() && out@ == #[trigger] before.insert(place, entry);
                assert(out@[place] == entry);
                assert(is_expiry(long, entry, i as int));
                assert forall|k: int| 0 <= k < out@.len() implies some_expiry(
                    long,
                    #[trigger] out@[k],
                ) by {
                    if k != place {
                        let was = if k < place {
                            k
                        } else {
                            k - 1
                        };
                        assert(out@[k] == before[was]);
                        assert(some_expiry(short, before[was]));
                        let m = choose|m: int| #[trigger] is_expiry(short, before[was], m);
                        assert(is_expiry(long, before[was], m));
                    }
                }
                assert forall|m: int| 0 <= m < long.len() implies expiry_listed(
                    out@,
                    #[trigger] long[m],
                ) by {
                    if m < i {
                        assert(long[m] == short[m]);
                        assert(expiry_listed(before, short[m]));
                        if let Some(t) = short[m].expiration {
                            let k = choose|k: int|
                                0 <= k < before.len() && (#[trigger] before[k]).0 == t.0
                                    && before[k].1 == short[m].id;
                            if k < place {
                                assert(out@[k] == before[k]);
                            } else {
                                assert(out@[k + 1] == before[k]);
                            }
                        }
                    }
                }
            }
        } else {
            proof {
                assert forall|k: int| 0 <= k < out@.len() implies some_expiry(
                    long,
                    #[trigger] out@[k],
                ) by {
                    assert(some_expiry(short, before[k]));
                    let m = choose|m: int| #[trigger] is_expiry(short, before[k], m);
                    assert(is_expiry(long, before[k], m));
                }
                assert forall|m: int| 0 <= m < long.len() implies expiry_listed(
                    out@,
                    #[trigger] long[m],
                ) by {
                    if m < i {
                        assert(long[m] == short[m]);
                        assert(expiry_listed(before, short[m]));
                    }
                }
            }
        }
        i += 1;
    }
    assert(listed.take(i as int) =~= listed);
    out
}

impl PlainEngine {
    /// An engine over a set of instruments: no fees, fills against the book
    /// as recorded, no latency, no margin, no limits, and no cash.
    pub fn builder(instruments: InstrumentSet) -> (b: PlainBuilder)
        requires
            instruments.wf(),
        ensures
            b.wf(),
            b == (EngineBuilder {
                instruments,
                starting_cash: Money(0),
                start: UnixNanos(0),
                fee_model: NoFees,
                fill_model: BookFills,
                latency_model: NoLatency,
                equity_interval: DEFAULT_EQUITY_INTERVAL_NANOS,
                margin: None::<CashMargin>,
                fx: b.fx,
                execution: b.execution,
                reporting_currency: b.reporting_currency,
                risk_limits: RiskLimits {
                    max_order_quantity: None,
                    max_abs_position: None,
                    max_open_orders: None,
                },
                allow_naked_shorts: false,
                set_costs: SetOperationCosts {
                    mint: Money(0),
                    redeem: Money(0),
                    convert: Money(0),
                },
                record_mark_curve: true,
                mark_source: MarkSource::VenueMark,
                liquidation: LiquidationPolicy::CloseAll,
                isolated: b.isolated,
                labels: b.labels,
            }),
            b.labels.wf(),
            b.fx@ == Rates::empty(),
            b.execution.at_venue() == "simulated"@,
            b.execution.history() == Seq::<(UnixNanos, ExecutionCommand)>::empty(),
            b.reporting_currency@ == "USDC"@,
            b.isolated@ == Map::<Seq<char>, ()>::empty(),
    {
        EngineBuilder {
            instruments,
            starting_cash: Money(0),
            start: UnixNanos(0),
            fee_model: NoFees,
            fill_model: BookFills,
            latency_model: NoLatency,
            equity_interval: DEFAULT_EQUITY_INTERVAL_NANOS,
            margin: None,
            fx: FxBook::new(),
            execution: SimulatedExecution::new("simulated"),
            reporting_currency: Currency::usdc(),
            risk_limits: RiskLimits::default(),
            allow_naked_shorts: false,
            set_costs: SetOperationCosts::default(),
            record_mark_curve: true,
            mark_source: MarkSource::default(),
            liquidation: LiquidationPolicy::default(),
            isolated: SortedMap::new(),
            labels: Labels::new(),
        }
    }
}

impl<F: FeeModel, L: FillModel, T: LatencyModel, M: MarginModel, X: ExecutionClient> EngineBuilder<
    F,
    L,
    T,
    M,
    X,
> {
    pub open spec fn wf(&self) -> bool {
        &&& self.instruments.wf()
        &&& self.fx.wf()
        &&& self.isolated.wf()
        &&& self.labels.wf()
        &&& self.fee_model.ready()
        &&& self.equity_interval > 0
    }

    /// Margin this instrument on its own collateral, not the account's.
    ///
    /// An isolated position posts its initial requirement into a bucket of
    /// its own and can lose exactly that. It does not draw on the cross
    /// account, and a cross account in profit will not rescue it.
    pub fn isolate(self, instrument: InstrumentId) -> (r: Self)
        requires
            self.wf(),
        ensures
            r.wf(),
            r == (EngineBuilder { isolated: r.isolated, ..self }),
            r.isolated@ == self.isolated@.insert(instrument@, ()),
    {
        let mut isolated = self.isolated;
        isolated.insert(instrument, ());
        EngineBuilder { isolated, ..self }
    }

    /// How much a margin call closes.
    pub fn liquidation_policy(self, policy: LiquidationPolicy) -> (r: Self)
        ensures
            r == (EngineBuilder { liquidation: policy, ..self }),
    {
        EngineBuilder { liquidation: policy, ..self }
    }

    /// Which price positions are valued, margined and liquidated at.
    pub fn mark_source(self, source: MarkSource) -> (r: Self)
        ensures
            r == (EngineBuilder { mark_source: source, ..self }),
    {
        EngineBuilder { mark_source: source, ..self }
    }

    /// Let a sell open short exposure in a prediction-market outcome.
    ///
    /// Off by default, and it should stay off for any venue that resembles
    /// a real one: a prediction-market contract cannot be borrowed. The
    /// bearish trade is to buy the complementary outcome, which costs
    /// `1 - p` and has the same payoff.
    pub fn allow_naked_shorts(self, allow: bool) -> (r: Self)
        ensures
            r == (EngineBuilder { allow_naked_shorts: allow, ..self }),
    {
        EngineBuilder { allow_naked_shorts: allow, ..self }
    }

    /// What a mint, redeem or conversion costs to perform.
    pub fn set_operation_costs(self, costs: SetOperationCosts) -> (r: Self)
        ensures
            r == (EngineBuilder { set_costs: costs, ..self }),
    {
        EngineBuilder { set_costs: costs, ..self }
    }

    /// Whether to sample every probability book onto the equity curve's
    /// clock, which is what a calibration or reliability report reads.
    pub fn record_mark_curve(self, record: bool) -> (r: Self)
        ensures
            r == (EngineBuilder { record_mark_curve: record, ..self }),
    {
        EngineBuilder { record_mark_curve: record, ..self }
    }

    pub fn starting_cash(self, cash: Money) -> (r: Self)
        ensures
            r == (EngineBuilder { starting_cash: cash, ..self }),
    {
        EngineBuilder { starting_cash: cash, ..self }
    }

    pub fn start(self, at: UnixNanos) -> (r: Self)
        ensures
            r == (EngineBuilder { start: at, ..self }),
    {
        EngineBuilder { start: at, ..self }
    }

    pub fn risk_limits(self, limits: RiskLimits) -> (r: Self)
        ensures
            r == (EngineBuilder { risk_limits: limits, ..self }),
    {
        EngineBuilder { risk_limits: limits, ..self }
    }

    /// Seed exchange rates for multi-currency valuation.
    pub fn fx(self, fx: FxBook) -> (r: Self)
        ensures
            r == (EngineBuilder { fx, ..self }),
    {
        EngineBuilder { fx, ..self }
    }

    /// The currency cash is held and equity reported in.
    pub fn reporting_currency(self, currency: Currency) -> (r: Self)
        ensures
            r == (EngineBuilder { reporting_currency: currency, ..self }),
    {
        EngineBuilder { reporting_currency: currency, ..self }
    }

    /// How often to sample the equity curve, in nanoseconds of simulated
    /// time. Sampling on an interval rather than per record keeps the curve
    /// a usable size on tick data.
    pub fn equity_interval_nanos(self, nanos: i64) -> (r: Result<Self, BacktestError>)
        ensures
            match r {
                Ok(b) => nanos > 0 && b == (EngineBuilder { equity_interval: nanos, ..self }),
                Err(e) => nanos <= 0 && says(
                    e,
                    "the equity sampling interval must be positive"@,
                ),
            },
    {
        if nanos <= 0 {
            return Err(BacktestError::invalid("the equity sampling interval must be positive"));
        }
        Ok(EngineBuilder { equity_interval: nanos, ..self })
    }

    pub fn fee_model<G: FeeModel>(self, model: G) -> (r: EngineBuilder<G, L, T, M, X>)
        ensures
            self.wf() && model.ready() ==> r.wf(),
            r.rest() == self.rest(),
            r.fee_model == model,
            r.fill_model == self.fill_model,
            r.latency_model == self.latency_model,
            r.margin == self.margin,
            r.execution == self.execution,
    {
        EngineBuilder {
            instruments: self.instruments,
            starting_cash: self.starting_cash,
            start: self.start,
            fee_model: model,
            fill_model: self.fill_model,
            latency_model: self.latency_model,
            equity_interval: self.equity_interval,
            margin: self.margin,
            fx: self.fx,
            execution: self.execution,
            reporting_currency: self.reporting_currency,
            risk_limits: self.risk_limits,
            allow_naked_shorts: self.allow_naked_shorts,
            set_costs: self.set_costs,
            record_mark_curve: self.record_mark_curve,
            mark_source: self.mark_source,
            liquidation: self.liquidation,
            isolated: self.isolated,
            labels: self.labels,
        }
    }

    pub fn fill_model<G: FillModel>(self, model: G) -> (r: EngineBuilder<F, G, T, M, X>)
        ensures
            self.wf() ==> r.wf(),
            r.rest() == self.rest(),
            r.fee_model == self.fee_model,
            r.fill_model == model,
            r.latency_model == self.latency_model,
            r.margin == self.margin,
            r.execution == self.execution,
    {
        EngineBuilder {
            instruments: self.instruments,
            starting_cash: self.starting_cash,
            start: self.start,
            fee_model: self.fee_model,
            fill_model: model,
            latency_model: self.latency_model,
            equity_interval: self.equity_interval,
            margin: self.margin,
            fx: self.fx,
            execution: self.execution,
            reporting_currency: self.reporting_currency,
            risk_limits: self.risk_limits,
            allow_naked_shorts: self.allow_naked_shorts,
            set_costs: self.set_costs,
            record_mark_curve: self.record_mark_curve,
            mark_source: self.mark_source,
            liquidation: self.liquidation,
            isolated: self.isolated,
            labels: self.labels,
        }
    }

    pub fn latency_model<G: LatencyModel>(self, model: G) -> (r: EngineBuilder<F, L, G, M, X>)
        ensures
            self.wf() ==> r.wf(),
            r.rest() == self.rest(),
            r.fee_model == self.fee_model,
            r.fill_model == self.fill_model,
            r.latency_model == model,
            r.margin == self.margin,
            r.execution == self.execution,
    {
        EngineBuilder {
            instruments: self.instruments,
            starting_cash: self.starting_cash,
            start: self.start,
            fee_model: self.fee_model,
            fill_model: self.fill_model,
            latency_model: model,
            equity_interval: self.equity_interval,
            margin: self.margin,
            fx: self.fx,
            execution: self.execution,
            reporting_currency: self.reporting_currency,
            risk_limits: self.risk_limits,
            allow_naked_shorts: self.allow_naked_shorts,
            set_costs: self.set_costs,
            record_mark_curve: self.record_mark_curve,
            mark_source: self.mark_source,
            liquidation: self.liquidation,
            isolated: self.isolated,
            labels: self.labels,
        }
    }

    /// Enforce a margin model: orders that would exceed available
    /// collateral are rejected, and a position that falls below maintenance
    /// is liquidated.
    ///
    /// Without one, leverage is infinite, and a strategy that would have
    /// been closed out by the venue instead reports a profit.
    pub fn margin_model<G: MarginModel>(self, model: G) -> (r: EngineBuilder<F, L, T, G, X>)
        ensures
            self.wf() ==> r.wf(),
            r.rest() == self.rest(),
            r.fee_model == self.fee_model,
            r.fill_model == self.fill_model,
            r.latency_model == self.latency_model,
            r.margin == Some(model),
            r.execution == self.execution,
    {
        EngineBuilder {
            instruments: self.instruments,
            starting_cash: self.starting_cash,
            start: self.start,
            fee_model: self.fee_model,
            fill_model: self.fill_model,
            latency_model: self.latency_model,
            equity_interval: self.equity_interval,
            margin: Some(model),
            fx: self.fx,
            execution: self.execution,
            reporting_currency: self.reporting_currency,
            risk_limits: self.risk_limits,
            allow_naked_shorts: self.allow_naked_shorts,
            set_costs: self.set_costs,
            record_mark_curve: self.record_mark_curve,
            mark_source: self.mark_source,
            liquidation: self.liquidation,
            isolated: self.isolated,
            labels: self.labels,
        }
    }

    /// Where orders are sent.
    ///
    /// The simulator is the default. A live adapter implementing the same
    /// trait is what makes sim-versus-live reconcilable at all: the
    /// instruction stream is directly comparable.
    pub fn execution_client<G: ExecutionClient>(self, client: G) -> (r: EngineBuilder<
        F,
        L,
        T,
        M,
        G,
    >)
        ensures
            self.wf() ==> r.wf(),
            r.rest() == self.rest(),
            r.fee_model == self.fee_model,
            r.fill_model == self.fill_model,
            r.latency_model == self.latency_model,
            r.margin == self.margin,
            r.execution == client,
    {
        EngineBuilder {
            instruments: self.instruments,
            starting_cash: self.starting_cash,
            start: self.start,
            fee_model: self.fee_model,
            fill_model: self.fill_model,
            latency_model: self.latency_model,
            equity_interval: self.equity_interval,
            margin: self.margin,
            fx: self.fx,
            execution: client,
            reporting_currency: self.reporting_currency,
            risk_limits: self.risk_limits,
            allow_naked_shorts: self.allow_naked_shorts,
            set_costs: self.set_costs,
            record_mark_curve: self.record_mark_curve,
            mark_source: self.mark_source,
            liquidation: self.liquidation,
            isolated: self.isolated,
            labels: self.labels,
        }
    }

    /// Everything set up but the models: what changing one leaves alone.
    pub open spec fn rest(self) -> Terms {
        Terms {
            instruments: self.instruments,
            starting_cash: self.starting_cash,
            start: self.start,
            equity_interval: self.equity_interval,
            fx: self.fx,
            reporting_currency: self.reporting_currency,
            risk_limits: self.risk_limits,
            allow_naked_shorts: self.allow_naked_shorts,
            set_costs: self.set_costs,
            record_mark_curve: self.record_mark_curve,
            mark_source: self.mark_source,
            liquidation: self.liquidation,
            isolated: self.isolated,
            labels: self.labels,
        }
    }

    /// The engine, before anything has happened.
    pub fn build(self) -> (e: Engine<F, L, T, M, X>)
        requires
            self.wf(),
        ensures
            e.wf(),
            e.audited(),
            e.built_from(self),
            e.money() == self.starting_cash,
            e.funds_given() == self.starting_cash,
            e.booked() == Seq::<Fill>::empty(),
            e.marks_stand(),
            e.client() == self.execution,
            e.holdings().held() == Map::<KeyView, Position>::empty(),
    {
        let expiries = collect_expiries(&self.instruments);
        let e = Engine {
            setup: Setup {
                instruments: self.instruments,
                margin: self.margin,
                fx: self.fx,
                reporting_currency: self.reporting_currency,
                risk_limits: self.risk_limits,
                allow_naked_shorts: self.allow_naked_shorts,
                set_costs: self.set_costs,
                record_mark_curve: self.record_mark_curve,
                liquidation: self.liquidation,
                isolated: self.isolated,
                equity_interval: self.equity_interval,
                labels: self.labels,
            },
            fee_model: self.fee_model,
            fill_model: self.fill_model,
            latency_model: self.latency_model,
            execution: self.execution,
            clock: Clock::new(self.start),
            market: Market::new(self.mark_source),
            ledger: Ledger::new(self.starting_cash),
            desk: Desk::new(),
            board: Board {
                expired: SortedMap::new(),
                expiries,
                next_expiry: 0,
                expirations: Vec::new(),
                delisted: SortedMap::new(),
            },
            journal: Journal {
                metrics: RunMetrics::default(),
                records: 0,
                simulated_through: None,
                next_equity_sample: None,
                equity: Vec::new(),
                mark_curve: Vec::new(),
                liquidations: Vec::new(),
                set_operations: Vec::new(),
                forecasts: Vec::new(),
                rejected_for_margin: 0,
                self_trades_prevented: 0,
            },
            split: Ghost(false),
            talk: Ghost(Seq::empty()),
        };
        proof {
            e.wf_is_sound();
            e.opening_figures();
        }
        e
    }
}

/// Everything a builder holds but the models.
pub struct Terms {
    pub instruments: InstrumentSet,
    pub starting_cash: Money,
    pub start: UnixNanos,
    pub equity_interval: i64,
    pub fx: FxBook,
    pub reporting_currency: Currency,
    pub risk_limits: RiskLimits,
    pub allow_naked_shorts: bool,
    pub set_costs: SetOperationCosts,
    pub record_mark_curve: bool,
    pub mark_source: MarkSource,
    pub liquidation: LiquidationPolicy,
    pub isolated: SortedMap<InstrumentId, ()>,
    /// What the venue calls orders of its own making.
    pub labels: Labels,
}

impl<F: FeeModel, L: FillModel, T: LatencyModel, M: MarginModel, X: ExecutionClient> Engine<
    F,
    L,
    T,
    M,
    X,
> {
    /// An engine just put together: set up as asked, with nothing seen,
    /// nothing sent and nothing held.
    pub closed spec fn built_from(&self, b: EngineBuilder<F, L, T, M, X>) -> bool {
        &&& self.setup == (Setup {
            instruments: b.instruments,
            margin: b.margin,
            fx: b.fx,
            reporting_currency: b.reporting_currency,
            risk_limits: b.risk_limits,
            allow_naked_shorts: b.allow_naked_shorts,
            set_costs: b.set_costs,
            record_mark_curve: b.record_mark_curve,
            liquidation: b.liquidation,
            isolated: b.isolated,
            equity_interval: b.equity_interval,
            labels: b.labels,
        })
        &&& expiries_of(self.board.expiries@, b.instruments.listed())
        &&& self.fee_model == b.fee_model
        &&& self.fill_model == b.fill_model
        &&& self.latency_model == b.latency_model
        &&& self.execution == b.execution
        &&& self.clock.time() == b.start.0
        &&& self.clock.timers() == Seq::<TimerEntry>::empty()
        &&& self.clock.last_sequence() == 0
        &&& self.market.books@ == Map::<KeyView, OrderBook>::empty()
        &&& self.market.marks@ == Map::<KeyView, Price>::empty()
        &&& self.market.book_marks@ == Map::<KeyView, Price>::empty()
        &&& self.market.venue_marks@ == Map::<KeyView, Price>::empty()
        &&& self.market.oracles@ == Map::<KeyView, Price>::empty()
        &&& self.market.mark_source == b.mark_source
        &&& self.ledger.cash == b.starting_cash
        &&& self.ledger.starting_cash == b.starting_cash
        &&& self.ledger.portfolio.held() == Map::<KeyView, Position>::empty()
        &&& self.ledger.portfolio.marked() == Map::<KeyView, Price>::empty()
        &&& self.ledger.isolated_collateral@ == Map::<Seq<char>, Money>::empty()
        &&& self.ledger.fills@ == Seq::<Fill>::empty()
        &&& self.ledger.funding_paid == Money(0)
        &&& self.ledger.dividends_received == Money(0)
        &&& self.desk.orders@ == Map::<u64, Order>::empty()
        &&& self.desk.resting@ == Seq::<OrderId>::empty()
        &&& self.desk.queue_ahead@ == Map::<u64, i64>::empty()
        &&& self.desk.live_orders@ == Seq::<OrderId>::empty()
        &&& self.desk.untriggered@ == Seq::<OrderId>::empty()
        &&& self.desk.inflight@ == Map::<(i64, u64), InFlightAction>::empty()
        &&& self.desk.twaps@ == Seq::<TwapProgress>::empty()
        &&& self.desk.next_order_id == 0
        &&& self.desk.sequence == 0
        &&& self.board.next_expiry == 0
        &&& self.board.expired@ == Map::<Seq<char>, ()>::empty()
        &&& self.board.delisted@ == Map::<Seq<char>, ()>::empty()
        &&& self.board.expirations@ == Seq::<(InstrumentId, UnixNanos)>::empty()
        &&& self.journal.metrics == no_counts(self.journal.metrics.records_by_kind)
        &&& self.journal.metrics.records_by_kind@ == Map::<Seq<char>, u64>::empty()
        &&& self.journal.records == 0
        &&& self.journal.simulated_through is None
        &&& self.journal.next_equity_sample is None
        &&& self.journal.equity@ == Seq::<EquityPoint>::empty()
        &&& self.journal.mark_curve@ == Seq::<MarkPoint>::empty()
        &&& self.journal.liquidations@ == Seq::<Liquidation>::empty()
        &&& self.journal.set_operations@ == Seq::<SetOperation>::empty()
        &&& self.journal.forecasts@ == Seq::<Forecast>::empty()
        &&& self.journal.rejected_for_margin == 0
        &&& self.journal.self_trades_prevented == 0
        &&& !self.split@
        &&& self.talk@ == Seq::<Exchange>::empty()
    }

    /// Building has one outcome: engines built from the same settings look
    /// the same, and nothing has been said in either.
    pub proof fn building_has_one_outcome(
        a: Self,
        b: Self,
        settings: EngineBuilder<F, L, T, M, X>,
    )
        requires
            a.wf(),
            b.wf(),
            a.built_from(settings),
            b.built_from(settings),
        ensures
            a.looks_like(b),
            a.fee_model_now() == settings.fee_model,
            b.fee_model_now() == settings.fee_model,
            a.fill_model_now() == settings.fill_model,
            a.conversation() == Seq::<Exchange>::empty(),
            b.conversation() == Seq::<Exchange>::empty(),
    {
        a.wf_is_sound();
        b.wf_is_sound();
        a.conversation_is_talk();
        b.conversation_is_talk();
        Self::looks_compare_states(a, b);
        let listed = settings.instruments.listed();
        let (x, y) = (a.board.expiries@, b.board.expiries@);
        expiries_there_too(x, y, listed);
        expiries_there_too(y, x, listed);
        let before = |p: (i64, InstrumentId), q: (i64, InstrumentId)| expires_before(p, q);
        assert forall|p: (i64, InstrumentId), q: (i64, InstrumentId)| #[trigger]
            before(p, q) implies !before(q, p) by {
            if text_before(p.1@, q.1@) && text_before(q.1@, p.1@) {
                text_before_transitive(p.1@, q.1@, p.1@);
                text_before_irreflexive(p.1@);
            }
        }
        assert forall|e: (i64, InstrumentId)| x.contains(e) == #[trigger] y.contains(e) by {}
        in_order_one_way(x, y, before);
        assert(a.market@.books =~= b.market@.books);
        assert(a.talk == b.talk && a.split == b.split);
    }
}

} // verus!
