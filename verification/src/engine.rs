//! The simulation kernel: what a run is, and what it is made of.
//!
//! Every record is processed in one fixed order. The clock moves first and
//! timers fire; what has expired stops trading; the market takes the record;
//! the venue matches what it reaches and calls what it must; triggers,
//! slices and the strategy follow; what the strategy sent is released last.
//! So the venue has always processed a record before the strategy can react
//! to it.

use vstd::prelude::*;
use vstd::string::*;

use crate::account::{Liquidation, MarginModel};
use crate::checks::{
    halted, market_of, naked_short, naked_short_rejection, not_carried, order_refusal,
    outcome_fault, over_limit, price_fault, refusal, risk_rejection, stopped_trading, text_of,
    Delisted, Orders,
};
use crate::clock::{one_shot, Clock};
use crate::desk::{open_in, queued, still_open, without, Desk, InFlightAction};
use crate::error::{says, BacktestError};
use crate::execution::{ExecutionClient, ExecutionCommand};
use crate::instrument::{Instrument, InstrumentId};
use crate::ledger::Ledger;
use crate::margin::{label_of, labelled, Setup};
use crate::market::Market;
use crate::metrics::{bumped, one_more, EquityPoint, RunMetrics};
use crate::models::{FeeModel, FillModel, LatencyModel};
use crate::order::{
    order_id_text, push_order_id, submitted, Order, OrderId, OrderKind, OrderStatus, TimeInForce,
};
use crate::ordered::SortedMap;
use crate::position::{KeyView, Position};
use crate::request::{
    fresh_twap, fresh_twap_is_sound, Forecast, MarkPoint, OrderRequest, SetOperation,
    SetOperationRequest, TwapProgress, TwapRequest,
};
use crate::strategy::{Exchange, Intent};
use crate::types::{fixed_text, push_fixed, saturated, saturating_sum, Price, Qty, UnixNanos};

verus! {

/// How often the equity curve is sampled unless told otherwise.
pub const DEFAULT_EQUITY_INTERVAL_NANOS: i64 = 1_000_000_000;

/// What has stopped trading.
pub struct Board {
    /// Instruments whose expiry the clock has passed.
    pub expired: SortedMap<InstrumentId, ()>,
    /// When instruments stop trading, earliest first.
    pub expiries: Vec<(i64, InstrumentId)>,
    /// How many expiries have been looked at.
    pub next_expiry: usize,
    pub expirations: Vec<(InstrumentId, UnixNanos)>,
    pub delisted: SortedMap<InstrumentId, ()>,
}

impl Board {
    pub open spec fn wf(&self) -> bool {
        self.expired.wf() && self.delisted.wf()
    }
}

/// What the run has recorded so far.
pub struct Journal {
    pub metrics: RunMetrics,
    pub records: u64,
    pub simulated_through: Option<UnixNanos>,
    pub next_equity_sample: Option<i64>,
    pub equity: Vec<EquityPoint>,
    pub mark_curve: Vec<MarkPoint>,
    pub liquidations: Vec<Liquidation>,
    pub set_operations: Vec<SetOperation>,
    pub forecasts: Vec<Forecast>,
    pub rejected_for_margin: u64,
    pub self_trades_prevented: u64,
}

/// Equity points that add up: cash and what the positions are worth.
pub open spec fn curve_adds_up(points: Seq<EquityPoint>) -> bool {
    forall|i: int|
        0 <= i < points.len() ==> (#[trigger] points[i]).equity.0 == points[i].cash.0
            + points[i].position_value.0
}

impl Journal {
    pub open spec fn wf(&self) -> bool {
        &&& self.metrics.wf()
        &&& curve_adds_up(self.equity@)
    }
}

/// A run in progress.
pub struct Engine<F, L, T, M, X> {
    pub(crate) setup: Setup<M>,
    pub(crate) fee_model: F,
    pub(crate) fill_model: L,
    pub(crate) latency_model: T,
    pub(crate) execution: X,
    pub(crate) clock: Clock,
    pub(crate) market: Market,
    pub(crate) ledger: Ledger,
    pub(crate) desk: Desk,
    pub(crate) board: Board,
    pub(crate) journal: Journal,
    /// Whether a split has restated what is held.
    pub(crate) split: Ghost<bool>,
    /// Every call of the strategy so far, and what it asked for.
    pub(crate) talk: Ghost<Seq<Exchange>>,
}

/// A command on its way to the desk, with the order id it was given.
pub enum Command {
    Submit(OrderId, OrderRequest),
    Cancel(OrderId),
    Amend { id: OrderId, quantity: Option<Qty>, limit: Option<Price> },
    Operate(SetOperationRequest),
    Twap(TwapRequest),
}

/// Two states of one order that differ at most in what a strategy may
/// change: its terms, and whether it is cancelled.
pub open spec fn only_terms_changed(a: Order, b: Order) -> bool {
    &&& b == (Order { kind: b.kind, quantity: b.quantity, status: b.status, ..a })
    &&& b.status == a.status || (!a.status.terminal() && b.status is Cancelled)
}

/// Two states of one order: it is still the same order.
pub open spec fn same_order(a: Order, b: Order) -> bool {
    &&& b.id == a.id
    &&& b.instrument == a.instrument
    &&& b.outcome == a.outcome
    &&& b.side == a.side
    &&& b.time_in_force == a.time_in_force
    &&& b.submitted_at == a.submitted_at
    &&& b.tag == a.tag
    &&& b.reduce_only == a.reduce_only
    &&& b.post_only == a.post_only
}

/// Every order is still there, and only its terms may have changed.
pub open spec fn orders_kept(a: Orders, b: Orders) -> bool {
    forall|k: u64| #[trigger]
        a.dom().contains(k) ==> b.dom().contains(k) && only_terms_changed(a[k], b[k])
}

/// Every order is still there.
pub open spec fn orders_known(a: Orders, b: Orders) -> bool {
    forall|k: u64| #[trigger]
        a.dom().contains(k) ==> b.dom().contains(k) && same_order(a[k], b[k])
}

/// What was there stands at the front.
pub open spec fn extends<A>(a: Seq<A>, b: Seq<A>) -> bool {
    a.len() <= b.len() && b.take(a.len() as int) == a
}

/// What a strategy's wishes may do to the desk.
pub open spec fn desk_carried(a: Desk, b: Desk) -> bool {
    &&& orders_kept(a.orders@, b.orders@)
    &&& b.next_order_id >= a.next_order_id
    &&& b.untriggered@ == a.untriggered@
    &&& extends(a.twaps@, b.twaps@)
}

/// An order as it is built from a request.
pub open spec fn ordered(id: OrderId, request: OrderRequest, now: UnixNanos) -> Order {
    Order {
        tag: request.tag,
        reduce_only: request.reduce_only,
        post_only: request.post_only,
        trigger: request.trigger,
        ..submitted(
            id,
            request.instrument,
            request.outcome,
            request.side,
            request.kind,
            request.quantity,
            request.time_in_force,
            now,
        )
    }
}

/// What becomes of a request.
pub enum Verdict {
    Invalid(Seq<char>),
    Halted(Seq<char>),
    NakedShort(Seq<char>),
    OverLimit(Seq<char>),
    Sent,
}

/// What becomes of a request: the first thing wrong with it, or nothing.
pub open spec fn verdict<M: MarginModel>(
    setup: Setup<M>,
    delisted: Delisted,
    held: Map<KeyView, Position>,
    orders: Orders,
    live: Seq<OrderId>,
    request: OrderRequest,
    order: Order,
    now: UnixNanos,
) -> Verdict {
    match refusal(setup.instruments@, request) {
        Some(text) => Verdict::Invalid(text),
        None => match halted(setup.instruments@, delisted, order.instrument@, now) {
            Some(text) => Verdict::Halted(text),
            None => match naked_short(
                setup.allow_naked_shorts,
                setup.instruments@,
                held,
                orders,
                live,
                order,
            ) {
                Some(text) => Verdict::NakedShort(text),
                None => match over_limit(setup.risk_limits, held, orders, live, order) {
                    Some(text) => Verdict::OverLimit(text),
                    None => Verdict::Sent,
                },
            },
        },
    }
}

/// The counters after a request was judged.
pub open spec fn judged(m: RunMetrics, v: Verdict) -> RunMetrics {
    let counted = RunMetrics { orders_submitted: bumped(m.orders_submitted), ..m };
    match v {
        Verdict::Invalid(_) => RunMetrics {
            orders_rejected_invalid: bumped(m.orders_rejected_invalid),
            ..counted
        },
        Verdict::Halted(_) => RunMetrics {
            orders_rejected_expired: bumped(m.orders_rejected_expired),
            ..counted
        },
        Verdict::NakedShort(_) => RunMetrics {
            orders_rejected_naked_short: bumped(m.orders_rejected_naked_short),
            ..counted
        },
        Verdict::OverLimit(_) => RunMetrics {
            orders_rejected_risk: bumped(m.orders_rejected_risk),
            ..counted
        },
        Verdict::Sent => counted,
    }
}

/// Why a request was refused, if it was.
pub open spec fn verdict_text(v: Verdict) -> Option<Seq<char>> {
    match v {
        Verdict::Invalid(text) => Some(text),
        Verdict::Halted(text) => Some(text),
        Verdict::NakedShort(text) => Some(text),
        Verdict::OverLimit(text) => Some(text),
        Verdict::Sent => None,
    }
}

/// An order that was refused.
pub open spec fn rejected_as(order: Order, after: Order, text: Seq<char>) -> bool {
    &&& after == (Order {
        status: OrderStatus::Rejected,
        reject_reason: after.reject_reason,
        ..order
    })
    &&& text_of(after.reject_reason) == Some(text)
}

/// An order with an amendment applied.
pub open spec fn amended(order: Order, quantity: Option<Qty>, limit: Option<Price>) -> Order {
    Order {
        kind: match limit {
            Some(limit) => OrderKind::Limit { limit },
            None => order.kind,
        },
        quantity: match quantity {
            Some(quantity) => quantity,
            None => order.quantity,
        },
        ..order
    }
}

/// Whether an amendment sends the order to the back of the queue: it changes
/// the price, or asks for more.
pub open spec fn loses_priority(order: Order, quantity: Option<Qty>, limit: Option<Price>) -> bool {
    (limit is Some && order.cap() != limit) || (quantity matches Some(q) && q.0 > order.quantity.0)
}

/// What is wrong with an amendment, if anything.
pub open spec fn amendment_fault(
    instruments: Map<Seq<char>, Instrument>,
    order: Order,
    quantity: Option<Qty>,
    limit: Option<Price>,
) -> Option<Seq<char>> {
    let price = match limit {
        Some(limit) => price_fault(instruments[order.instrument@], limit),
        None => None,
    };
    match price {
        Some(text) => Some(text),
        None => match quantity {
            Some(q) if q.0 <= 0 => Some(
                "an amended quantity must be positive; cancel instead"@,
            ),
            Some(q) if q.0 < order.filled.0 => Some(
                "cannot amend order "@ + order_id_text(order.id) + " below the "@ + fixed_text(
                    order.filled.0 as int,
                ) + " already filled"@,
            ),
            _ => None,
        },
    }
}

/// The ids the submissions in a list are given: one after another.
pub open spec fn numbered(intents: Seq<Intent>, last: int) -> Seq<Command>
    decreases intents.len(),
{
    if intents.len() == 0 {
        Seq::empty()
    } else {
        let rest = numbered(intents.drop_last(), last);
        let n = last + submits(intents.drop_last());
        rest.push(
            match intents.last() {
                Intent::Submit(request) => Command::Submit(OrderId((n + 1) as u64), request),
                Intent::Cancel(id) => Command::Cancel(id),
                Intent::Amend { id, quantity, limit } => Command::Amend { id, quantity, limit },
                Intent::Operate(request) => Command::Operate(request),
                Intent::Twap(request) => Command::Twap(request),
            },
        )
    }
}

/// How many submissions a list holds.
pub open spec fn submits(intents: Seq<Intent>) -> nat
    decreases intents.len(),
{
    if intents.len() == 0 {
        0
    } else {
        submits(intents.drop_last()) + if intents.last() is Submit {
            1nat
        } else {
            0nat
        }
    }
}

/// The id a command submits an order under.
pub open spec fn submit_id(command: Command) -> Option<u64> {
    match command {
        Command::Submit(id, _) => Some(id.0),
        _ => None,
    }
}

/// Whether the submissions left in a list have ids nobody has used.
pub open spec fn fresh_ids(commands: Seq<Command>, orders: Orders, last: u64) -> bool {
    &&& forall|i: int|
        0 <= i < commands.len() ==> (submit_id(#[trigger] commands[i]) matches Some(id) ==> id
            <= last && !orders.dom().contains(id))
    &&& forall|i: int, j: int|
        #![trigger commands[i], commands[j]]
        0 <= i < j < commands.len() && submit_id(commands[i]) is Some ==> submit_id(commands[i])
            != submit_id(commands[j])
}

/// Why a refusal cannot be recorded as an order: no id is left for it, or
/// its quantity is none an order can have.
pub open spec fn unissued(error: BacktestError, quantity: Qty, last: u64) -> bool {
    if last == u64::MAX {
        error == (BacktestError::Overflow { what: "order id" })
    } else {
        quantity.0 <= 0 && says(
            error,
            "order quantity must be positive; direction is the side, not the sign"@,
        )
    }
}

impl<F: FeeModel, L: FillModel, T: LatencyModel, M: MarginModel, X: ExecutionClient> Engine<
    F,
    L,
    T,
    M,
    X,
> {
    /// Every part is consistent.
    pub closed spec fn wf(&self) -> bool {
        self.sound()
    }

    /// Positions are exactly what the fills make of them: no split has
    /// restated one.
    pub closed spec fn audited(&self) -> bool {
        self.balanced() && !self.split@
    }

    pub(crate) open spec fn sound(&self) -> bool {
        &&& self.setup.wf()
        &&& self.fee_model.ready()
        &&& self.clock.wf()
        &&& one_shot(self.clock.timers())
        &&& self.market.wf()
        &&& self.ledger.wf()
        &&& self.desk.wf()
        &&& self.board.wf()
        &&& self.journal.wf()
    }

    pub(crate) proof fn wf_is_sound(&self)
        ensures
            self.wf() == self.sound(),
            self.audited() == (self.balanced() && !self.split@),
    {
    }

    pub(crate) open spec fn balanced(&self) -> bool {
        !self.split@ ==> self.ledger.explained_by_fills()
    }

    /// Whatever a strategy's wishes do, they leave the account, the market
    /// and the record of the run alone.
    pub(crate) open spec fn heeded(self, after: Self) -> bool {
        &&& after.setup == self.setup
        &&& after.fee_model == self.fee_model
        &&& after.fill_model == self.fill_model
        &&& after.latency_model == self.latency_model
        &&& after.clock.time() == self.clock.time()
        &&& after.market == self.market
        &&& after.ledger == self.ledger
        &&& after.board == self.board
        &&& after.journal == (Journal {
            metrics: after.journal.metrics,
            forecasts: after.journal.forecasts,
            ..self.journal
        })
        &&& after.journal.metrics == (RunMetrics {
            orders_submitted: after.journal.metrics.orders_submitted,
            orders_rejected_invalid: after.journal.metrics.orders_rejected_invalid,
            orders_rejected_expired: after.journal.metrics.orders_rejected_expired,
            orders_rejected_naked_short: after.journal.metrics.orders_rejected_naked_short,
            orders_rejected_risk: after.journal.metrics.orders_rejected_risk,
            orders_amended: after.journal.metrics.orders_amended,
            queue_joins: after.journal.metrics.queue_joins,
            ..self.journal.metrics
        })
        &&& extends(self.journal.forecasts@, after.journal.forecasts@)
        &&& desk_carried(self.desk, after.desk)
        &&& after.split == self.split
    }

    /// What holds between any two instants of one step: the settings, the
    /// clock and the market stand still, orders and fills are only added to,
    /// and the books still balance.
    pub(crate) open spec fn advanced(self, after: Self) -> bool {
        &&& after.setup == self.setup
        &&& after.fill_model == self.fill_model
        &&& after.latency_model == self.latency_model
        &&& after.clock.time() == self.clock.time()
        &&& after.market == self.market
        &&& after.board == self.board
        &&& extends(self.ledger.fills@, after.ledger.fills@)
        &&& after.ledger.starting_cash == self.ledger.starting_cash
        &&& after.ledger.funding_paid == self.ledger.funding_paid
        &&& after.ledger.dividends_received == self.ledger.dividends_received
        &&& after.journal.metrics.corporate_actions == self.journal.metrics.corporate_actions
        &&& after.split == self.split
        &&& after.journal.records == self.journal.records
        &&& after.journal.equity == self.journal.equity
        &&& after.journal.simulated_through == self.journal.simulated_through
        &&& extends(self.journal.liquidations@, after.journal.liquidations@)
        &&& orders_known(self.desk.orders@, after.desk.orders@)
        &&& after.desk.next_order_id >= self.desk.next_order_id
        &&& self.balanced() ==> after.balanced()
    }

    /// What trying to trade leaves alone: of the journal only the counters of
    /// orders and fills move, no stop is parked or released, and no schedule
    /// already under way is touched.
    pub(crate) open spec fn only_traded(self, after: Self) -> bool {
        &&& after.journal == (Journal {
            metrics: after.journal.metrics,
            forecasts: after.journal.forecasts,
            ..self.journal
        })
        &&& after.journal.metrics == (RunMetrics {
            orders_submitted: after.journal.metrics.orders_submitted,
            orders_rejected_invalid: after.journal.metrics.orders_rejected_invalid,
            orders_rejected_expired: after.journal.metrics.orders_rejected_expired,
            orders_rejected_naked_short: after.journal.metrics.orders_rejected_naked_short,
            orders_rejected_risk: after.journal.metrics.orders_rejected_risk,
            orders_amended: after.journal.metrics.orders_amended,
            queue_joins: after.journal.metrics.queue_joins,
            fills_taker: after.journal.metrics.fills_taker,
            fills_maker: after.journal.metrics.fills_maker,
            ..self.journal.metrics
        })
        &&& extends(self.journal.forecasts@, after.journal.forecasts@)
        &&& after.desk.untriggered@ == self.desk.untriggered@
        &&& extends(self.desk.twaps@, after.desk.twaps@)
    }

    pub(crate) proof fn traded_again(a: Self, b: Self, c: Self)
        requires
            a.only_traded(b),
            b.only_traded(c),
        ensures
            a.only_traded(c),
    {
        assert(c.journal.forecasts@.take(a.journal.forecasts@.len() as int)
            =~= c.journal.forecasts@.take(b.journal.forecasts@.len() as int).take(
            a.journal.forecasts@.len() as int,
        ));
        assert(c.desk.twaps@.take(a.desk.twaps@.len() as int) =~= c.desk.twaps@.take(
            b.desk.twaps@.len() as int,
        ).take(a.desk.twaps@.len() as int));
    }

    pub(crate) proof fn trades_itself(self)
        ensures
            self.only_traded(self),
    {
        assert(self.journal.forecasts@.take(self.journal.forecasts@.len() as int)
            =~= self.journal.forecasts@);
        assert(self.desk.twaps@.take(self.desk.twaps@.len() as int) =~= self.desk.twaps@);
    }

    /// What holds between any two instants of a run: the settings stand,
    /// time does not go back, orders, fills and forced closes are only added
    /// to, and the books still balance.
    pub(crate) open spec fn carried(self, after: Self) -> bool {
        &&& after.setup == self.setup
        &&& after.fill_model == self.fill_model
        &&& after.latency_model == self.latency_model
        &&& self.clock.time() <= after.clock.time()
        &&& after.market.mark_source == self.market.mark_source
        &&& self.market.marks_agree() ==> after.market.marks_agree()
        &&& extends(self.ledger.fills@, after.ledger.fills@)
        &&& after.ledger.starting_cash == self.ledger.starting_cash
        &&& extends(self.journal.liquidations@, after.journal.liquidations@)
        &&& orders_known(self.desk.orders@, after.desk.orders@)
        &&& self.desk.next_order_id <= after.desk.next_order_id
        &&& self.balanced() ==> after.balanced()
    }

    pub(crate) proof fn advancing_carries(a: Self, b: Self)
        requires
            a.advanced(b),
        ensures
            a.carried(b),
    {
    }

    pub(crate) proof fn carried_again(a: Self, b: Self, c: Self)
        requires
            a.carried(b),
            b.carried(c),
        ensures
            a.carried(c),
    {
        assert(c.ledger.fills@.take(a.ledger.fills@.len() as int) =~= c.ledger.fills@.take(
            b.ledger.fills@.len() as int,
        ).take(a.ledger.fills@.len() as int));
        assert(c.journal.liquidations@.take(a.journal.liquidations@.len() as int)
            =~= c.journal.liquidations@.take(b.journal.liquidations@.len() as int).take(
            a.journal.liquidations@.len() as int,
        ));
        assert forall|k: u64| #[trigger]
            a.desk.orders@.dom().contains(k) implies c.desk.orders@.dom().contains(k) && same_order(
            a.desk.orders@[k],
            c.desk.orders@[k],
        ) by {
            assert(b.desk.orders@.dom().contains(k));
        }
    }

    pub(crate) proof fn heeded_advances(a: Self, b: Self)
        requires
            a.heeded(b),
        ensures
            a.advanced(b),
    {
        assert(b.ledger.fills@.take(a.ledger.fills@.len() as int) =~= a.ledger.fills@);
        assert(b.journal.liquidations@.take(a.journal.liquidations@.len() as int)
            =~= a.journal.liquidations@);
        assert forall|k: u64| #[trigger]
            a.desk.orders@.dom().contains(k) implies b.desk.orders@.dom().contains(k) && same_order(
            a.desk.orders@[k],
            b.desk.orders@[k],
        ) by {
            assert(only_terms_changed(a.desk.orders@[k], b.desk.orders@[k]));
        }
    }

    pub(crate) proof fn advanced_again(a: Self, b: Self, c: Self)
        requires
            a.advanced(b),
            b.advanced(c),
        ensures
            a.advanced(c),
    {
        assert(c.ledger.fills@.take(a.ledger.fills@.len() as int) =~= b.ledger.fills@.take(
            a.ledger.fills@.len() as int,
        ));
        assert(c.journal.liquidations@.take(a.journal.liquidations@.len() as int)
            =~= b.journal.liquidations@.take(a.journal.liquidations@.len() as int));
        assert forall|k: u64| #[trigger]
            a.desk.orders@.dom().contains(k) implies c.desk.orders@.dom().contains(k) && same_order(
            a.desk.orders@[k],
            c.desk.orders@[k],
        ) by {
            assert(b.desk.orders@.dom().contains(k));
        }
    }

    pub(crate) proof fn heeded_again(a: Self, b: Self, c: Self)
        requires
            a.heeded(b),
            b.heeded(c),
        ensures
            a.heeded(c),
    {
        assert(c.journal.forecasts@.take(a.journal.forecasts@.len() as int)
            =~= b.journal.forecasts@.take(a.journal.forecasts@.len() as int));
        assert(c.desk.twaps@.take(a.desk.twaps@.len() as int) =~= b.desk.twaps@.take(
            a.desk.twaps@.len() as int,
        ));
        assert forall|k: u64| #[trigger]
            a.desk.orders@.dom().contains(k) implies c.desk.orders@.dom().contains(k)
            && only_terms_changed(a.desk.orders@[k], c.desk.orders@[k]) by {
            assert(b.desk.orders@.dom().contains(k));
        }
    }

    /// What becomes of a request in the present state.
    pub(crate) open spec fn judges(self, id: OrderId, request: OrderRequest) -> Verdict {
        let now = UnixNanos(self.clock.time());
        verdict(
            self.setup,
            self.board.delisted@,
            self.ledger.portfolio.held(),
            self.desk.orders@,
            still_open(self.desk.live_orders@, self.desk.orders@),
            request,
            ordered(id, request, now),
            now,
        )
    }

    /// One request taken: refused with its reason, or on its way to the
    /// venue.
    pub(crate) open spec fn accepts(self, after: Self, id: OrderId, request: OrderRequest) -> bool {
        let now = UnixNanos(self.clock.time());
        let order = ordered(id, request, now);
        let live = still_open(self.desk.live_orders@, self.desk.orders@);
        let v = self.judges(id, request);
        let filed = after.desk.orders@[id.0];
        &&& request.quantity.0 > 0
        &&& after == (Engine {
            execution: after.execution,
            desk: Desk {
                orders: after.desk.orders,
                live_orders: after.desk.live_orders,
                inflight: after.desk.inflight,
                sequence: after.desk.sequence,
                ..self.desk
            },
            journal: Journal { metrics: judged(self.journal.metrics, v), ..self.journal },
            ..self
        })
        &&& after.desk.orders@ == self.desk.orders@.insert(id.0, filed)
        &&& match verdict_text(v) {
            Some(text) => {
                &&& rejected_as(order, filed, text)
                &&& after.desk.live_orders@ == live
                &&& after.desk.inflight@ == self.desk.inflight@
                &&& after.desk.sequence == self.desk.sequence
                &&& after.execution == self.execution
            },
            None => {
                &&& filed == order
                &&& after.desk.sequence == self.desk.sequence + 1
                &&& self.execution.takes(
                    ExecutionCommand::Submit(Box::new(order)),
                    now,
                    &after.execution,
                    true,
                )
                &&& after.desk.live_orders@ == live.push(id)
                &&& after.desk.inflight@ == self.desk.inflight@.insert(
                    (
                        saturated(now.0 + self.latency_model.insert_delay()) as i64,
                        after.desk.sequence,
                    ),
                    InFlightAction::Order(id),
                )
            },
        }
    }

    /// One order cancelled, if it was open.
    pub(crate) open spec fn cancels(self, after: Self, id: OrderId) -> bool {
        if open_in(self.desk.orders@, id.0) {
            &&& after == (Engine {
                execution: after.execution,
                desk: Desk {
                    orders: after.desk.orders,
                    resting: after.desk.resting,
                    resting_index: after.desk.resting_index,
                    queue_ahead: after.desk.queue_ahead,
                    ..self.desk
                },
                ..self
            })
            &&& self.execution.takes(
                ExecutionCommand::Cancel(id),
                UnixNanos(self.clock.time()),
                &after.execution,
                true,
            )
            &&& after.desk.orders@ == self.desk.orders@.insert(
                id.0,
                (Order { status: OrderStatus::Cancelled, ..self.desk.orders@[id.0] }),
            )
            &&& after.desk.resting@ == without(self.desk.resting@, id)
            &&& after.desk.queue_ahead@ == self.desk.queue_ahead@.remove(id.0)
        } else {
            after == self
        }
    }

    /// One order amended, if it was open.
    pub(crate) open spec fn amends(
        self,
        after: Self,
        id: OrderId,
        quantity: Option<Qty>,
        limit: Option<Price>,
    ) -> bool {
        if open_in(self.desk.orders@, id.0) {
            let order = self.desk.orders@[id.0];
            let changed = amended(order, quantity, limit);
            &&& after == (Engine {
                execution: after.execution,
                desk: Desk {
                    orders: after.desk.orders,
                    resting_index: after.desk.resting_index,
                    queue_ahead: after.desk.queue_ahead,
                    ..self.desk
                },
                journal: Journal {
                    metrics: RunMetrics {
                        orders_amended: bumped(self.journal.metrics.orders_amended),
                        queue_joins: if loses_priority(order, quantity, limit)
                            && self.fill_model.tracks_queue() && changed.cap() is Some {
                            bumped(self.journal.metrics.queue_joins)
                        } else {
                            self.journal.metrics.queue_joins
                        },
                        ..self.journal.metrics
                    },
                    ..self.journal
                },
                ..self
            })
            &&& self.execution.takes(
                (ExecutionCommand::Amend { id, quantity, limit }),
                UnixNanos(self.clock.time()),
                &after.execution,
                true,
            )
            &&& after.desk.orders@ == self.desk.orders@.insert(id.0, changed)
            &&& after.desk.queue_ahead@ == (if loses_priority(order, quantity, limit) {
                queued(
                    self.desk.queue_ahead@.remove(id.0),
                    changed,
                    self.market.book_in(market_of(order)),
                    self.fill_model.tracks_queue(),
                )
            } else {
                self.desk.queue_ahead@
            })
        } else {
            after == self
        }
    }

    /// One set operation on its way to the venue.
    pub(crate) open spec fn queues(self, after: Self, request: SetOperationRequest) -> bool {
        &&& self.desk.sequence < u64::MAX
        &&& after == (Engine {
            desk: Desk {
                inflight: after.desk.inflight,
                sequence: (self.desk.sequence + 1) as u64,
                ..self.desk
            },
            ..self
        })
        &&& after.desk.inflight@ == self.desk.inflight@.insert(
            (
                saturated(self.clock.time() + self.latency_model.insert_delay()) as i64,
                after.desk.sequence,
            ),
            InFlightAction::Operation(request),
        )
    }

    /// Why an order is not worked in slices, if it is not.
    pub(crate) open spec fn twap_fault(self, request: TwapRequest) -> Option<Seq<char>> {
        if !self.setup.instruments@.dom().contains(request.instrument@) {
            Some(request.instrument@ + " is not an instrument this run carries"@)
        } else {
            outcome_fault(self.setup.instruments@[request.instrument@], request.outcome)
        }
    }

    /// Whether a sliced order is taken, be it only to be refused on record.
    pub(crate) open spec fn takes_twap(self, request: TwapRequest) -> bool {
        if self.twap_fault(request) is None {
            request.workable()
        } else {
            request.quantity.0 > 0 && self.desk.next_order_id < u64::MAX
        }
    }

    /// One sliced order taken: its schedule started, or its refusal recorded
    /// as an order of its own.
    pub(crate) open spec fn starts_twap(self, after: Self, request: TwapRequest) -> bool {
        let now = UnixNanos(self.clock.time());
        match self.twap_fault(request) {
            None => {
                &&& request.workable()
                &&& after.desk.twaps@ == self.desk.twaps@.push(fresh_twap(request, now))
                &&& after == (Engine {
                    desk: Desk { twaps: after.desk.twaps, ..self.desk },
                    ..self
                })
            },
            Some(text) => {
                let id = OrderId((self.desk.next_order_id + 1) as u64);
                let filed = after.desk.orders@[id.0];
                &&& request.quantity.0 > 0
                &&& after == (Engine {
                    desk: Desk { orders: after.desk.orders, next_order_id: id.0, ..self.desk },
                    journal: Journal {
                        metrics: RunMetrics {
                            orders_submitted: bumped(self.journal.metrics.orders_submitted),
                            orders_rejected_invalid: bumped(
                                self.journal.metrics.orders_rejected_invalid,
                            ),
                            ..self.journal.metrics
                        },
                        ..self.journal
                    },
                    ..self
                })
                &&& after.desk.orders@ == self.desk.orders@.insert(id.0, filed)
                &&& filed == (Order {
                    status: OrderStatus::Rejected,
                    reject_reason: filed.reject_reason,
                    tag: Some(labelled(request.tag, self.setup.labels.twap)),
                    ..submitted(
                        id,
                        request.instrument,
                        request.outcome,
                        request.side,
                        OrderKind::Market,
                        request.quantity,
                        TimeInForce::ImmediateOrCancel,
                        now,
                    )
                })
                &&& text_of(filed.reject_reason) == Some(text)
            },
        }
    }

    /// One command carried out.
    pub(crate) open spec fn performs(self, after: Self, command: Command) -> bool {
        match command {
            Command::Submit(id, request) => self.accepts(after, id, request),
            Command::Cancel(id) => self.cancels(after, id),
            Command::Amend { id, quantity, limit } => self.amends(after, id, quantity, limit),
            Command::Operate(request) => self.queues(after, request),
            Command::Twap(request) => self.starts_twap(after, request),
        }
    }

    /// Commands carried out one after another.
    pub(crate) open spec fn carries_out(self, after: Self, commands: Seq<Command>) -> bool
        decreases commands.len(),
    {
        if commands.len() == 0 {
            after == self
        } else {
            exists|between: Self|
                self.carries_out(between, commands.drop_last()) && #[trigger] between.performs(
                    after,
                    commands.last(),
                )
        }
    }

    /// Whether the client may refuse an instruction sent now.
    pub(crate) open spec fn client_refuses(self, command: ExecutionCommand) -> bool {
        exists|after: X| #[trigger]
            self.execution.takes(command, UnixNanos(self.clock.time()), &after, false)
    }

    /// An order fit to be sent that cannot be.
    pub(crate) open spec fn cannot_send(self, id: OrderId, request: OrderRequest) -> bool {
        let order = ordered(id, request, UnixNanos(self.clock.time()));
        &&& self.judges(id, request) is Sent
        &&& self.desk.sequence == u64::MAX || self.client_refuses(
            ExecutionCommand::Submit(Box::new(order)),
        )
    }

    /// An amendment of an open order that is at fault, or that the client may
    /// refuse.
    pub(crate) open spec fn cannot_amend(
        self,
        id: OrderId,
        quantity: Option<Qty>,
        limit: Option<Price>,
    ) -> bool {
        let order = self.desk.orders@[id.0];
        let known = limit is None || self.setup.instruments@.dom().contains(order.instrument@);
        &&& open_in(self.desk.orders@, id.0)
        &&& !known || amendment_fault(self.setup.instruments@, order, quantity, limit) is Some
            || self.client_refuses((ExecutionCommand::Amend { id, quantity, limit }))
    }

    /// What can keep a command from being carried out: an order or an
    /// amendment at fault, a venue that decides for itself, or a number used up.
    pub(crate) open spec fn may_refuse(self, command: Command) -> bool {
        match command {
            Command::Submit(id, request) => request.quantity.0 <= 0 || self.cannot_send(id, request),
            Command::Cancel(id) => open_in(self.desk.orders@, id.0) && self.client_refuses(
                ExecutionCommand::Cancel(id),
            ),
            Command::Amend { id, quantity, limit } => self.cannot_amend(id, quantity, limit),
            Command::Operate(request) => self.desk.sequence == u64::MAX,
            Command::Twap(request) => !self.takes_twap(request),
        }
    }

    /// Commands carried out up to one that may be refused.
    pub(crate) open spec fn stops_short(self, commands: Seq<Command>) -> bool {
        exists|k: int, between: Self|
            0 <= k < commands.len() && #[trigger] self.carries_out(between, commands.take(k))
                && #[trigger] between.may_refuse(commands[k])
    }

    /// Take one queued order and either send it to the venue or refuse it.
    ///
    /// A fault in *one order* is the venue's answer to that order, so it is
    /// recorded, counted and explained, and the run carries on.
    pub(crate) fn accept(&mut self, id: OrderId, request: OrderRequest) -> (r: Result<
        (),
        BacktestError,
    >)
        requires
            old(self).sound(),
            id.0 <= old(self).desk.next_order_id,
            !old(self).desk.orders@.dom().contains(id.0),
        ensures
            final(self).sound(),
            old(self).heeded(*final(self)),
            final(self).talk == old(self).talk,
            final(self).clock == old(self).clock,
            final(self).journal.forecasts == old(self).journal.forecasts,
            final(self).desk.next_order_id == old(self).desk.next_order_id,
            forall|k: u64|
                k != id.0 ==> final(self).desk.orders@.dom().contains(k) == #[trigger] old(
                    self,
                ).desk.orders@.dom().contains(k),
            match r {
                Ok(_) => old(self).accepts(*final(self), id, request),
                Err(e) => (request.quantity.0 <= 0 && says(
                    e,
                    "order quantity must be positive; direction is the side, not the sign"@,
                )) || old(self).cannot_send(id, request),
            },
    {
        let reason = order_refusal(&self.setup.instruments, &request);
        let now = self.clock.now();
        let ghost live = still_open(self.desk.live_orders@, self.desk.orders@);
        let ghost start = *self;
        let built = Order::new(
            id,
            request.instrument.clone(),
            request.outcome,
            request.side,
            request.kind,
            request.quantity,
            request.time_in_force,
            now,
        );
        let mut order = match built {
            Ok(order) => order,
            Err(e) => {
                assert(self.journal.forecasts@.take(self.journal.forecasts@.len() as int)
                    =~= self.journal.forecasts@);
                assert(self.desk.twaps@.take(self.desk.twaps@.len() as int)
                    =~= self.desk.twaps@);
                return Err(e);
            },
        };
        order.tag = crate::order::clone_text(&request.tag);
        order.reduce_only = request.reduce_only;
        order.post_only = request.post_only;
        order.trigger = request.trigger;
        assert(order == ordered(id, request, now));
        self.journal.metrics.orders_submitted = one_more(self.journal.metrics.orders_submitted);
        self.desk.purge_live();
        proof {
            assert(self.journal.forecasts@.take(start.journal.forecasts@.len() as int)
                =~= start.journal.forecasts@);
            assert(self.desk.twaps@.take(start.desk.twaps@.len() as int) =~= start.desk.twaps@);
            if self.desk.resting@.contains(id) {
                assert(self.desk.orders@.dom().contains(id.0));
            }
        }
        if let Some(text) = reason {
            self.journal.metrics.orders_rejected_invalid = one_more(
                self.journal.metrics.orders_rejected_invalid,
            );
            self.desk.file(
                Order { status: OrderStatus::Rejected, reject_reason: Some(text), ..order },
            );
            return Ok(());
        }
        if let Some(text) = stopped_trading(
            &self.setup.instruments,
            &self.board.delisted,
            &order.instrument,
            now,
        ) {
            self.journal.metrics.orders_rejected_expired = one_more(
                self.journal.metrics.orders_rejected_expired,
            );
            self.desk.file(
                Order { status: OrderStatus::Rejected, reject_reason: Some(text), ..order },
            );
            return Ok(());
        }
        if let Some(text) = naked_short_rejection(
            self.setup.allow_naked_shorts,
            &self.setup.instruments,
            &self.ledger,
            &self.desk.orders,
            &self.desk.live_orders,
            &order,
        ) {
            self.journal.metrics.orders_rejected_naked_short = one_more(
                self.journal.metrics.orders_rejected_naked_short,
            );
            self.desk.file(
                Order { status: OrderStatus::Rejected, reject_reason: Some(text), ..order },
            );
            return Ok(());
        }
        if let Some(text) = risk_rejection(
            &self.setup.risk_limits,
            &self.ledger,
            &self.desk.orders,
            &self.desk.live_orders,
            &order,
        ) {
            self.journal.metrics.orders_rejected_risk = one_more(
                self.journal.metrics.orders_rejected_risk,
            );
            self.desk.file(
                Order { status: OrderStatus::Rejected, reject_reason: Some(text), ..order },
            );
            return Ok(());
        }
        self.execution.send(ExecutionCommand::Submit(Box::new(order.clone())), now)?;
        let release_at: i64 = saturating_sum(now.0, self.latency_model.insert_nanos());
        self.desk.send_later(release_at, InFlightAction::Order(id))?;
        self.desk.live_orders.push(id);
        self.desk.file(order);
        Ok(())
    }

    /// Cancel an order that is still open.
    pub(crate) fn cancel(&mut self, id: OrderId) -> (r: Result<(), BacktestError>)
        requires
            old(self).sound(),
        ensures
            final(self).sound(),
            old(self).heeded(*final(self)),
            final(self).talk == old(self).talk,
            final(self).clock == old(self).clock,
            final(self).journal == old(self).journal,
            final(self).desk.next_order_id == old(self).desk.next_order_id,
            final(self).desk.orders@.dom() == old(self).desk.orders@.dom(),
            match r {
                Ok(_) => old(self).cancels(*final(self), id),
                Err(_) => open_in(old(self).desk.orders@, id.0) && old(self).client_refuses(
                    ExecutionCommand::Cancel(id),
                ),
            },
    {
        let ghost start = *self;
        assert(self.journal.forecasts@.take(start.journal.forecasts@.len() as int)
            =~= start.journal.forecasts@);
        assert(self.desk.twaps@.take(start.desk.twaps@.len() as int) =~= start.desk.twaps@);
        if crate::desk::is_open(&self.desk.orders, id) {
            let at = self.clock.now();
            self.desk.close(id, OrderStatus::Cancelled);
            assert(self.desk.orders@.dom() =~= start.desk.orders@.dom());
            assert(at == UnixNanos(start.clock.time()));
            self.execution.send(ExecutionCommand::Cancel(id), at)?;
        }
        Ok(())
    }

    /// Apply an amendment, moving the order to the back of the queue when
    /// the change deserves it: a new price, or a larger size. Shrinking an
    /// order keeps its place.
    pub(crate) fn amend(&mut self, id: OrderId, quantity: Option<Qty>, limit: Option<Price>) -> (r:
        Result<(), BacktestError>)
        requires
            old(self).sound(),
        ensures
            final(self).sound(),
            old(self).heeded(*final(self)),
            final(self).talk == old(self).talk,
            final(self).clock == old(self).clock,
            final(self).journal.forecasts == old(self).journal.forecasts,
            final(self).desk.next_order_id == old(self).desk.next_order_id,
            final(self).desk.orders@.dom() == old(self).desk.orders@.dom(),
            if !open_in(old(self).desk.orders@, id.0) {
                r is Ok && old(self).amends(*final(self), id, quantity, limit)
            } else {
                let order = old(self).desk.orders@[id.0];
                let known = limit is None || old(self).setup.instruments@.dom().contains(
                    order.instrument@,
                );
                let fault = amendment_fault(
                    old(self).setup.instruments@,
                    order,
                    quantity,
                    limit,
                );
                if !known {
                    r is Err && *final(self) == *old(self)
                } else if fault is Some {
                    r matches Err(e) && says(e, fault->Some_0) && *final(self) == *old(self)
                } else {
                    match r {
                        Ok(_) => old(self).amends(*final(self), id, quantity, limit),
                        Err(_) => old(self).client_refuses(
                            (ExecutionCommand::Amend { id, quantity, limit }),
                        ),
                    }
                }
            },
    {
        let ghost start = *self;
        proof {
            assert(self.journal.forecasts@.take(start.journal.forecasts@.len() as int)
                =~= start.journal.forecasts@);
            assert(self.desk.twaps@.take(start.desk.twaps@.len() as int) =~= start.desk.twaps@);
        }
        let order = match self.desk.order(id) {
            Some(order) => order,
            None => {
                return Ok(());
            },
        };
        if !order.is_open() {
            return Ok(());
        }
        let mut updated = order.clone();
        let mut moved = false;
        if let Some(new_limit) = limit {
            let instrument = self.setup.instruments.get(&order.instrument)?;
            instrument.check_price(new_limit)?;
            let same = match order.limit_price() {
                Some(current) => current.0 == new_limit.0,
                None => false,
            };
            if !same {
                updated.kind = OrderKind::Limit { limit: new_limit };
                moved = true;
            }
        }
        if let Some(new_quantity) = quantity {
            if !new_quantity.is_positive() {
                return Err(
                    BacktestError::invalid("an amended quantity must be positive; cancel instead"),
                );
            }
            if new_quantity.0 < order.filled.0 {
                let mut m = "cannot amend order ".to_owned();
                push_order_id(&mut m, id);
                m.append(" below the ");
                push_fixed(&mut m, order.filled.0);
                m.append(" already filled");
                return Err(BacktestError::Invalid(m));
            }
            if new_quantity.0 > order.quantity.0 {
                moved = true;
            }
            updated.quantity = new_quantity;
        }
        assert(updated == amended(order, quantity, limit));
        assert(moved == loses_priority(order, quantity, limit));
        self.desk.replace(updated.clone());
        assert(self.desk.orders@.dom() =~= start.desk.orders@.dom());
        self.journal.metrics.orders_amended = one_more(self.journal.metrics.orders_amended);
        let now = self.clock.now();
        assert(now == UnixNanos(start.clock.time()));
        self.execution.send((ExecutionCommand::Amend { id, quantity, limit }), now)?;
        if moved {
            let tracks = self.fill_model.uses_queue_position();
            if self.desk.requeue(&updated, &self.market, tracks) {
                self.journal.metrics.queue_joins = one_more(self.journal.metrics.queue_joins);
            }
        }
        Ok(())
    }

    /// Send a set operation to the venue, which sees it after the same
    /// insertion latency an order faces.
    pub(crate) fn queue_set_operation(&mut self, request: SetOperationRequest) -> (r: Result<
        (),
        BacktestError,
    >)
        requires
            old(self).sound(),
        ensures
            final(self).sound(),
            old(self).heeded(*final(self)),
            final(self).talk == old(self).talk,
            final(self).clock == old(self).clock,
            final(self).journal == old(self).journal,
            match r {
                Ok(_) => old(self).queues(*final(self), request),
                Err(e) => {
                    &&& old(self).desk.sequence == u64::MAX
                    &&& *final(self) == *old(self)
                    &&& e == (BacktestError::Overflow { what: "send sequence" })
                },
            },
    {
        let ghost start = *self;
        assert(self.journal.forecasts@.take(start.journal.forecasts@.len() as int)
            =~= start.journal.forecasts@);
        assert(self.desk.twaps@.take(start.desk.twaps@.len() as int) =~= start.desk.twaps@);
        let now = self.clock.now();
        let release_at: i64 = saturating_sum(now.0, self.latency_model.insert_nanos());
        self.desk.send_later(release_at, InFlightAction::Operation(request))
    }

    /// Start working an order in slices, or refuse to.
    pub(crate) fn start_twap(&mut self, request: TwapRequest) -> (r: Result<(), BacktestError>)
        requires
            old(self).sound(),
        ensures
            final(self).sound(),
            old(self).heeded(*final(self)),
            final(self).talk == old(self).talk,
            final(self).clock == old(self).clock,
            final(self).journal.forecasts == old(self).journal.forecasts,
            forall|k: u64|
                k <= old(self).desk.next_order_id ==> final(self).desk.orders@.dom().contains(k)
                    == #[trigger] old(self).desk.orders@.dom().contains(k),
            r is Ok ==> old(self).starts_twap(*final(self), request),
            r is Ok <==> old(self).takes_twap(request),
            r matches Err(e) ==> old(self).twap_fault(request) is None || unissued(
                e,
                request.quantity,
                old(self).desk.next_order_id,
            ),
            r is Err && old(self).twap_fault(request) is None ==> *final(self) == *old(self),
    {
        let ghost start = *self;
        proof {
            assert(self.journal.forecasts@.take(start.journal.forecasts@.len() as int)
                =~= start.journal.forecasts@);
            assert(self.desk.twaps@.take(start.desk.twaps@.len() as int) =~= start.desk.twaps@);
        }
        let reason: Option<String> = match self.setup.instruments.get(&request.instrument) {
            Ok(instrument) => match instrument.check_outcome(request.outcome) {
                Ok(_) => None,
                Err(e) => Some(e.message()),
            },
            Err(_) => Some(not_carried(&request.instrument)),
        };
        if let Some(text) = reason {
            return self.reject_twap(&request, text);
        }
        let total_slices: i64 = request.slices()?;
        let now = self.clock.now();
        proof {
            fresh_twap_is_sound(request, now);
        }
        let progress = TwapProgress {
            started_at: now,
            next_at: now.0,
            request,
            sent: 0,
            total_slices,
            worked: Qty(0),
        };
        assert(progress == fresh_twap(request, now));
        self.desk.twaps.push(progress);
        proof {
            assert(self.desk.twaps@.take(start.desk.twaps@.len() as int) =~= start.desk.twaps@);
        }
        Ok(())
    }

    /// Record the venue's refusal of a sliced order as an order of its own.
    fn reject_twap(&mut self, request: &TwapRequest, reason: String) -> (r: Result<
        (),
        BacktestError,
    >)
        requires
            old(self).sound(),
        ensures
            final(self).sound(),
            old(self).heeded(*final(self)),
            final(self).talk == old(self).talk,
            final(self).clock == old(self).clock,
            final(self).journal.forecasts == old(self).journal.forecasts,
            forall|k: u64|
                k <= old(self).desk.next_order_id ==> final(self).desk.orders@.dom().contains(k)
                    == #[trigger] old(self).desk.orders@.dom().contains(k),
            r is Ok ==> {
                let id = OrderId((old(self).desk.next_order_id + 1) as u64);
                let after = final(self).desk.orders@[id.0];
                &&& *final(self) == (Engine {
                    desk: Desk {
                        orders: final(self).desk.orders,
                        next_order_id: id.0,
                        ..old(self).desk
                    },
                    journal: Journal {
                        metrics: RunMetrics {
                            orders_submitted: bumped(old(self).journal.metrics.orders_submitted),
                            orders_rejected_invalid: bumped(
                                old(self).journal.metrics.orders_rejected_invalid,
                            ),
                            ..old(self).journal.metrics
                        },
                        ..old(self).journal
                    },
                    ..*old(self)
                })
                &&& final(self).desk.orders@ == old(self).desk.orders@.insert(id.0, after)
                &&& after == (Order {
                    status: OrderStatus::Rejected,
                    reject_reason: Some(reason),
                    tag: Some(labelled(request.tag, old(self).setup.labels.twap)),
                    ..submitted(
                        id,
                        request.instrument,
                        request.outcome,
                        request.side,
                        OrderKind::Market,
                        request.quantity,
                        TimeInForce::ImmediateOrCancel,
                        UnixNanos(old(self).clock.time()),
                    )
                })
            },
            r matches Err(e) ==> unissued(e, request.quantity, old(self).desk.next_order_id),
            r is Ok <==> request.quantity.0 > 0 && old(self).desk.next_order_id < u64::MAX,
    {
        let ghost start = *self;
        proof {
            assert(self.journal.forecasts@.take(start.journal.forecasts@.len() as int)
                =~= start.journal.forecasts@);
            assert(self.desk.twaps@.take(start.desk.twaps@.len() as int) =~= start.desk.twaps@);
        }
        let id = self.desk.issue()?;
        let now = self.clock.now();
        let order = Order::new(
            id,
            request.instrument.clone(),
            request.outcome,
            request.side,
            OrderKind::Market,
            request.quantity,
            TimeInForce::ImmediateOrCancel,
            now,
        )?;
        let tag = label_of(&request.tag, &self.setup.labels.twap);
        proof {
            if self.desk.resting@.contains(id) {
                assert(self.desk.orders@.dom().contains(id.0));
            }
        }
        self.desk.file(
            Order {
                status: OrderStatus::Rejected,
                reject_reason: Some(reason),
                tag: Some(tag),
                ..order
            },
        );
        self.journal.metrics.orders_submitted = one_more(self.journal.metrics.orders_submitted);
        self.journal.metrics.orders_rejected_invalid = one_more(
            self.journal.metrics.orders_rejected_invalid,
        );
        Ok(())
    }
}

/// A request is sent exactly where nothing is wrong with it: its shape is
/// one the venue knows, its instrument trades, it is no naked short and it is
/// within the limits. What is said of one that is refused is the first of
/// these that fails.
pub proof fn a_request_is_sent_where_nothing_is_wrong<M: MarginModel>(
    setup: Setup<M>,
    delisted: Delisted,
    held: Map<KeyView, Position>,
    orders: Orders,
    live: Seq<OrderId>,
    request: OrderRequest,
    order: Order,
    now: UnixNanos,
)
    ensures
        ({
            let v = verdict(setup, delisted, held, orders, live, request, order, now);
            let shape = refusal(setup.instruments@, request);
            let stopped = halted(setup.instruments@, delisted, order.instrument@, now);
            let short = naked_short(
                setup.allow_naked_shorts,
                setup.instruments@,
                held,
                orders,
                live,
                order,
            );
            let limit = over_limit(setup.risk_limits, held, orders, live, order);
            &&& v is Sent <==> shape is None && stopped is None && short is None && limit is None
            &&& verdict_text(v) is None <==> v is Sent
            &&& shape is Some ==> verdict_text(v) == shape
            &&& shape is None && stopped is Some ==> verdict_text(v) == stopped
            &&& shape is None && stopped is None && short is Some ==> verdict_text(v) == short
            &&& shape is None && stopped is None && short is None ==> verdict_text(v) == limit
        }),
{
}

/// Every request counts as submitted, and a refused one under what it was
/// refused for, once.
pub proof fn every_request_is_counted(m: RunMetrics, v: Verdict)
    ensures
        ({
            let after = judged(m, v);
            &&& m.orders_submitted < u64::MAX ==> after.orders_submitted == m.orders_submitted + 1
            &&& v is Invalid && m.orders_rejected_invalid < u64::MAX
                ==> after.orders_rejected_invalid == m.orders_rejected_invalid + 1
            &&& v is Halted && m.orders_rejected_expired < u64::MAX
                ==> after.orders_rejected_expired == m.orders_rejected_expired + 1
            &&& v is NakedShort && m.orders_rejected_naked_short < u64::MAX
                ==> after.orders_rejected_naked_short == m.orders_rejected_naked_short + 1
            &&& v is OverLimit && m.orders_rejected_risk < u64::MAX ==> after.orders_rejected_risk
                == m.orders_rejected_risk + 1
            &&& !(v is Invalid) ==> after.orders_rejected_invalid == m.orders_rejected_invalid
            &&& !(v is Halted) ==> after.orders_rejected_expired == m.orders_rejected_expired
            &&& !(v is NakedShort) ==> after.orders_rejected_naked_short
                == m.orders_rejected_naked_short
            &&& !(v is OverLimit) ==> after.orders_rejected_risk == m.orders_rejected_risk
        }),
{
}

/// An order is what its request asks for, in flight and unfilled from the
/// instant it is sent.
pub proof fn an_order_is_what_was_asked_for(id: OrderId, request: OrderRequest, now: UnixNanos)
    ensures
        ({
            let order = ordered(id, request, now);
            &&& order.id == id && order.submitted_at == now
            &&& order.instrument == request.instrument && order.outcome == request.outcome
            &&& order.side == request.side && order.kind == request.kind
            &&& order.quantity == request.quantity && order.time_in_force == request.time_in_force
            &&& order.tag == request.tag && order.trigger == request.trigger
            &&& order.reduce_only == request.reduce_only && order.post_only == request.post_only
            &&& order.status is InFlight && order.filled.0 == 0
            &&& order.accepted_at is None && order.reject_reason is None
        }),
{
}

/// An amendment changes what it names and nothing else, and costs the order
/// its place in the queue exactly where it changes the price or asks for
/// more: asking for less keeps it.
pub proof fn asking_for_less_keeps_the_place(
    order: Order,
    quantity: Option<Qty>,
    limit: Option<Price>,
)
    ensures
        ({
            let after = amended(order, quantity, limit);
            &&& after == (Order { kind: after.kind, quantity: after.quantity, ..order })
            &&& quantity matches Some(q) ==> after.quantity == q
            &&& quantity is None ==> after.quantity == order.quantity
            &&& limit matches Some(price) ==> after.kind == (OrderKind::Limit { limit: price })
            &&& limit is None ==> after.kind == order.kind
        }),
        order.kind matches OrderKind::Limit { limit: old_price } ==> {
            &&& loses_priority(order, quantity, limit) <==> (limit matches Some(price) && price
                != old_price) || (quantity matches Some(q) && q.0 > order.quantity.0)
            &&& limit is None && (quantity matches Some(q) ==> q.0 <= order.quantity.0)
                ==> !loses_priority(order, quantity, limit)
        },
{
}

/// An amendment is taken exactly where the instrument takes its price and it
/// asks for something, and for no less than is filled.
pub proof fn what_can_be_amended(
    instruments: Map<Seq<char>, Instrument>,
    order: Order,
    quantity: Option<Qty>,
    limit: Option<Price>,
)
    ensures
        amendment_fault(instruments, order, quantity, limit) is None <==> {
            let instrument = instruments[order.instrument@];
            &&& limit matches Some(price) ==> {
                &&& instrument.kind is PredictionMarket ==> 0 <= price.0 <= 1_000_000_000
                &&& instrument.tick_size.0 > 0 ==> price.0 as int % instrument.tick_size.0 as int
                    == 0
            }
            &&& quantity matches Some(q) ==> q.0 > 0 && q.0 >= order.filled.0
        },
{
}

} // verus!
