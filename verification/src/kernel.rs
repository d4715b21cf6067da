//! Driving a run: one record at a time, in the order a venue would act, and
//! the account of it at the end.

use vstd::prelude::*;
use vstd::string::*;

use crate::account::{Liquidation, MarginModel};
use crate::actions::is_split;
use crate::clock::{event_key, fire_due, one_shot_fires, Clock, TimerKey};
use crate::engine::{curve_adds_up, extends, Engine, Journal};
use crate::error::{says, BacktestError};
use crate::event::{event_kind, MarketEvent, Record};
use crate::execution::ExecutionClient;
use crate::instrument::InstrumentId;
use crate::market::key_for;
use crate::metrics::{bumped, count_of, one_more, EquityPoint, RunMetrics};
use crate::models::{FeeModel, FillModel, LatencyModel};
use crate::order::{Fill, Order, OrderId, OrderStatus};
use crate::ordered::{entries_map, SortedMap};
use crate::position::{
    commission_items, folded, money_total, realized_items, KeyView, Portfolio, Position,
    PositionKey,
};
use crate::replay::{drained, head_key, next_lane, records_of, total_left, RecordSource, Replay};
use crate::request::{Forecast, MarkPoint, SetOperation, TwapProgress};
use crate::strategy::{talked, talked_again, talked_not, Exchange, Strategy, Told};
use crate::text::int_text;
use crate::timeline::has_instant;
use crate::types::{Money, Price, UnixNanos};

verus! {

/// How a run ended.
#[derive(PartialEq, Eq, Debug)]
pub struct RunResult {
    pub fills: Vec<Fill>,
    pub orders: Vec<Order>,
    pub final_cash: Money,
    pub starting_cash: Money,
    pub realized_pnl: Money,
    pub commissions: Money,
    /// The last instant actually replayed. `None` when no data arrived.
    /// Settlement is gated on this, not on the requested window.
    pub simulated_through: Option<UnixNanos>,
    pub records_processed: u64,
    /// The last mark seen per book, for valuing what stayed open.
    pub marks: SortedMap<PositionKey, Price>,
    /// The equity curve, sampled on a fixed interval of simulated time.
    pub equity: Vec<EquityPoint>,
    /// Net funding paid out over the run. Negative means funding was
    /// received.
    pub funding_paid: Money,
    /// Cash received from dividends, net of what a short paid.
    pub dividends_received: Money,
    /// Positions the venue closed because the account fell below its
    /// maintenance requirement.
    pub liquidations: Vec<Liquidation>,
    /// Orders refused because the account could not fund them.
    pub rejected_for_margin: u64,
    /// Orders refused because they would have crossed with this account's
    /// own resting book.
    pub self_trades_prevented: u64,
    /// Every complete-set operation attempted, in order, including the ones
    /// the venue refused.
    pub set_operations: Vec<SetOperation>,
    /// Probabilities the strategy stated, each paired with the market's own
    /// price at that instant.
    pub forecasts: Vec<Forecast>,
    /// The market's own probabilities, sampled on the equity curve's clock.
    pub mark_curve: Vec<MarkPoint>,
    /// Instruments that stopped trading during the run, with the instant.
    pub expirations: Vec<(InstrumentId, UnixNanos)>,
    /// Every TWAP the run started, with how much of it was worked.
    pub twaps: Vec<TwapProgress>,
    /// Counters explaining what the run did and did not do.
    pub metrics: RunMetrics,
}

/// The states one step passes through, in the order the venue acts.
pub struct Trail<E> {
    /// Time has moved, and the timers due have fired.
    pub timed: E,
    /// Markets whose window closed have stopped trading.
    pub expired: E,
    /// The venue has the data.
    pub applied: E,
    /// A print has worked through the passive queue.
    pub printed: E,
    /// Resting orders the new book crosses have been tried.
    pub matched: E,
    /// The account's margin call, if any, has been answered.
    pub called: E,
    /// Isolated calls have been answered.
    pub isolated: E,
    /// Stops the mark has reached are ordinary orders.
    pub armed: E,
    /// Schedules have sent what was due.
    pub worked: E,
    /// The strategy has been told, and what it asked for taken over.
    pub told: E,
    /// What was in flight has reached the venue.
    pub delivered: E,
    /// The record has been counted.
    pub counted: E,
}

/// How an order ended, as a run counts them.
pub enum Ending {
    Filled,
    Partial,
    CancelledUnfilled,
    Other,
}

pub open spec fn ending(order: Order) -> Ending {
    match order.status {
        OrderStatus::Filled => Ending::Filled,
        OrderStatus::PartiallyFilled => Ending::Partial,
        OrderStatus::Cancelled => if order.filled.0 == 0 {
            Ending::CancelledUnfilled
        } else {
            Ending::Partial
        },
        _ => Ending::Other,
    }
}

/// How many of a list of orders ended one way.
pub open spec fn ended(orders: Seq<(u64, Order)>, how: Ending) -> nat
    decreases orders.len(),
{
    if orders.len() == 0 {
        0
    } else {
        ended(orders.drop_last(), how) + if ending(orders.last().1) == how {
            1nat
        } else {
            0nat
        }
    }
}

proof fn ended_at_most(orders: Seq<(u64, Order)>, how: Ending)
    ensures
        ended(orders, how) <= orders.len(),
    decreases orders.len(),
{
    if orders.len() > 0 {
        ended_at_most(orders.drop_last(), how);
    }
}

proof fn ended_are_those(
    orders: Seq<(u64, Order)>,
    how: Ending,
    which: spec_fn(Order) -> bool,
)
    requires
        forall|o: Order| #[trigger] which(o) <==> ending(o) == how,
    ensures
        ended(orders, how) == orders.map_values(|e: (u64, Order)| e.1).filter(which).len(),
    decreases orders.len(),
{
    reveal(Seq::filter);
    let all = orders.map_values(|e: (u64, Order)| e.1);
    if orders.len() > 0 {
        let rest = orders.drop_last();
        ended_are_those(rest, how, which);
        assert(all.drop_last() =~= rest.map_values(|e: (u64, Order)| e.1));
        assert(which(all.last()) <==> ending(orders.last().1) == how);
    }
}

/// Two set operations that say the same.
pub open spec fn same_operation(a: SetOperation, b: SetOperation) -> bool {
    &&& b == (SetOperation { kind: b.kind, ..a })
    &&& b.kind@ == a.kind@
}

/// Two lists of set operations that say the same.
pub open spec fn same_operations(a: Seq<SetOperation>, b: Seq<SetOperation>) -> bool {
    a.len() == b.len() && forall|i: int|
        0 <= i < a.len() ==> same_operation(a[i], #[trigger] b[i])
}

impl RunResult {
    /// Two reports that say the same of a run.
    pub open spec fn same_as(self, other: Self) -> bool {
        &&& self.fills@ == other.fills@
        &&& self.orders@ == other.orders@
        &&& self.final_cash == other.final_cash
        &&& self.starting_cash == other.starting_cash
        &&& self.realized_pnl == other.realized_pnl
        &&& self.commissions == other.commissions
        &&& self.simulated_through == other.simulated_through
        &&& self.records_processed == other.records_processed
        &&& self.marks@ == other.marks@
        &&& self.equity@ == other.equity@
        &&& self.funding_paid == other.funding_paid
        &&& self.dividends_received == other.dividends_received
        &&& self.liquidations@ == other.liquidations@
        &&& self.rejected_for_margin == other.rejected_for_margin
        &&& self.self_trades_prevented == other.self_trades_prevented
        &&& same_operations(self.set_operations@, other.set_operations@)
        &&& self.forecasts@ == other.forecasts@
        &&& self.mark_curve@ == other.mark_curve@
        &&& self.expirations@ == other.expirations@
        &&& self.twaps@ == other.twaps@
        &&& self.metrics == (RunMetrics {
            records_by_kind: self.metrics.records_by_kind,
            ..other.metrics
        })
        &&& self.metrics.records_by_kind@ == other.metrics.records_by_kind@
    }
}

fn copy_orders(orders: &SortedMap<u64, Order>) -> (out: Vec<Order>)
    ensures
        out@ == orders.seq().map_values(|e: (u64, Order)| e.1),
{
    let mut out: Vec<Order> = Vec::new();
    let n: usize = orders.len();
    let mut i: usize = 0;
    while i < n
        invariant
            n == orders.seq().len(),
            i <= n,
            out@.len() == i,
            forall|j: int| 0 <= j < i ==> #[trigger] out@[j] == orders.seq()[j].1,
        decreases n - i,
    {
        out.push(orders.value_at(i).clone());
        i += 1;
    }
    assert(out@ =~= orders.seq().map_values(|e: (u64, Order)| e.1));
    out
}

fn copy_prices(prices: &SortedMap<PositionKey, Price>) -> (r: SortedMap<PositionKey, Price>)
    ensures
        prices.wf() ==> r.wf() && r@ == prices@,
{
    let mut r: SortedMap<PositionKey, Price> = SortedMap::new();
    let mut i: usize = 0;
    while i < prices.len()
        invariant
            i <= prices.seq().len(),
            r.wf(),
            r@ == entries_map(prices.seq().take(i as int)),
        decreases prices.seq().len() - i,
    {
        let key = prices.key_at(i);
        r.insert((key.0.clone(), key.1), *prices.value_at(i));
        assert(prices.seq().take(i + 1).drop_last() =~= prices.seq().take(i as int));
        i += 1;
    }
    assert(prices.seq().take(i as int) =~= prices.seq());
    r
}

fn copy_expirations(list: &Vec<(InstrumentId, UnixNanos)>) -> (out: Vec<(InstrumentId, UnixNanos)>)
    ensures
        out@ == list@,
{
    let mut out: Vec<(InstrumentId, UnixNanos)> = Vec::new();
    let mut i: usize = 0;
    while i < list.len()
        invariant
            i <= list@.len(),
            out@ == list@.take(i as int),
        decreases list@.len() - i,
    {
        out.push((list[i].0.clone(), list[i].1));
        assert(list@.take(i + 1) =~= list@.take(i as int).push(list@[i as int]));
        i += 1;
    }
    assert(list@.take(i as int) =~= list@);
    out
}

fn copy_operations(list: &Vec<SetOperation>) -> (out: Vec<SetOperation>)
    ensures
        same_operations(list@, out@),
{
    let mut out: Vec<SetOperation> = Vec::new();
    let mut i: usize = 0;
    while i < list.len()
        invariant
            i <= list@.len(),
            out@.len() == i,
            forall|j: int| 0 <= j < i ==> same_operation(list@[j], #[trigger] out@[j]),
        decreases list@.len() - i,
    {
        out.push(list[i].clone());
        i += 1;
    }
    out
}

fn copy_all<A: Clone>(list: &Vec<A>) -> (out: Vec<A>)
    ensures
        out@.len() == list@.len(),
        forall|i: int| 0 <= i < list@.len() ==> cloned::<A>(list@[i], #[trigger] out@[i]),
{
    let mut out: Vec<A> = Vec::new();
    let mut i: usize = 0;
    while i < list.len()
        invariant
            i <= list@.len(),
            out@.len() == i,
            forall|j: int| 0 <= j < i ==> cloned::<A>(list@[j], #[trigger] out@[j]),
        decreases list@.len() - i,
    {
        out.push(list[i].clone());
        i += 1;
    }
    out
}

/// Whether no record is a split.
pub open spec fn no_split(records: Seq<Record>) -> bool {
    forall|i: int| 0 <= i < records.len() ==> !is_split(#[trigger] records[i])
}

/// Whether fills add up to a profit and to commissions: every portfolio that
/// they rebuild comes to both.
pub open spec fn adds_up_to(fills: Seq<Fill>, realized: Money, commissions: Money) -> bool {
    forall|rebuilt: Portfolio|
        rebuilt.wf() && folded(fills) == Ok::<Map<KeyView, Position>, BacktestError>(
            #[trigger] rebuilt.held(),
        ) ==> money_total(realized_items(rebuilt.listed())) == Ok::<Money, BacktestError>(realized)
            && money_total(commission_items(rebuilt.listed())) == Ok::<Money, BacktestError>(
            commissions,
        )
}

/// What is said of a record that lies before the clock.
pub open spec fn went_back(clock: Clock, ts: UnixNanos, error: BacktestError) -> bool {
    says(
        error,
        "clock cannot move backwards: "@ + int_text(ts.0 as int) + " precedes "@ + int_text(
            clock.time() as int,
        ),
    )
}

impl<F: FeeModel, L: FillModel, T: LatencyModel, M: MarginModel, X: ExecutionClient> Engine<
    F,
    L,
    T,
    M,
    X,
> {
    /// The positions held.
    pub closed spec fn holdings(&self) -> Portfolio {
        self.ledger.portfolio
    }

    /// The cash on hand.
    pub closed spec fn money(&self) -> Money {
        self.ledger.cash
    }

    /// The client orders are sent through.
    pub closed spec fn client(&self) -> X {
        self.execution
    }

    /// The cash the run was given.
    pub closed spec fn funds_given(&self) -> Money {
        self.ledger.starting_cash
    }

    /// Every call of the strategy so far, and what it asked for.
    pub closed spec fn conversation(&self) -> Seq<Exchange> {
        self.talk@
    }

    pub(crate) proof fn conversation_is_talk(&self)
        ensures
            self.conversation() == self.talk@,
    {
    }

    /// Whether every mark is the one its sources give.
    pub closed spec fn marks_stand(&self) -> bool {
        self.market.marks_agree()
    }

    /// The fills booked so far, in order.
    pub closed spec fn booked(&self) -> Seq<Fill> {
        self.ledger.fills@
    }

    /// What the figures of an engine are taken from.
    pub(crate) proof fn reporting_is_saying(&self, result: RunResult)
        ensures
            self.reports(result) == self.is_said(result),
    {
    }

    pub(crate) proof fn opening_figures(&self)
        ensures
            self.holdings() == self.ledger.portfolio,
            self.money() == self.ledger.cash,
            self.client() == self.execution,
            self.funds_given() == self.ledger.starting_cash,
            self.booked() == self.ledger.fills@,
            self.marks_stand() == self.market.marks_agree(),
    {
    }

    pub fn portfolio(&self) -> (r: &Portfolio)
        ensures
            *r == self.holdings(),
    {
        &self.ledger.portfolio
    }

    /// The execution client, for reading back what was sent to the venue.
    pub fn execution(&self) -> (r: &X)
        ensures
            *r == self.client(),
    {
        &self.execution
    }

    pub fn cash(&self) -> (r: Money)
        ensures
            r == self.money(),
    {
        self.ledger.cash
    }

    /// The timers due by an instant, in the order they fire.
    pub(crate) open spec fn due_by(self, ts: UnixNanos) -> Seq<TimerKey> {
        fire_due(self.clock.timers(), self.clock.last_sequence(), ts.0 as int).fired
    }

    /// The clock moved on, with the timers due taken off it.
    pub(crate) open spec fn moves_clock(self, moved: Self, ts: UnixNanos) -> bool {
        let all = fire_due(self.clock.timers(), self.clock.last_sequence(), ts.0 as int);
        &&& self.clock.time() <= ts.0
        &&& moved == (Engine { clock: moved.clock, ..self })
        &&& moved.clock.time() == ts.0
        &&& moved.clock.timers() == all.timers
        &&& moved.clock.last_sequence() == all.sequence
    }

    /// The strategy told of timers one after another, and heeded each time.
    pub(crate) open spec fn hears(self, after: Self, events: Seq<TimerKey>) -> bool
        decreases events.len(),
    {
        if events.len() == 0 {
            after == self
        } else {
            exists|between: Self|
                self.hears(between, events.drop_last()) && #[trigger] between.listens(
                    after,
                    Told::Timer(events.last()),
                )
        }
    }

    /// Time moved on, and the timers due before a record fired first.
    pub(crate) open spec fn wakes(self, after: Self, ts: UnixNanos) -> bool {
        exists|moved: Self| #[trigger]
            self.moves_clock(moved, ts) && moved.hears(after, self.due_by(ts))
    }

    /// No timer is due by an instant.
    pub(crate) open spec fn none_due(self, ts: UnixNanos) -> bool {
        self.due_by(ts).len() == 0
    }

    /// Move time on, and tell the strategy of every timer due on the way.
    ///
    /// Only a record from the past, or a strategy that is told of a timer,
    /// can keep time from moving on.
    fn wake<S: Strategy>(&mut self, ts: UnixNanos, strategy: &mut S) -> (r: Result<
        (),
        BacktestError,
    >)
        requires
            old(self).sound(),
            old(strategy).ready(),
        ensures
            final(self).sound(),
            final(strategy).ready(),
            old(strategy).willing() ==> final(strategy).willing(),
            r is Ok ==> talked(*old(strategy), *final(strategy), old(self).talk@, final(self).talk@),
            r is Ok ==> old(self).wakes(*final(self), ts),
            r is Ok ==> old(self).carried(*final(self)),
            r is Ok ==> final(self).split == old(self).split,
            r is Ok ==> final(self).clock.time() == ts.0,
            if ts.0 < old(self).clock.time() {
                r matches Err(e) && went_back(old(self).clock, ts, e)
            } else {
                &&& old(self).none_due(ts) ==> r is Ok
                &&& old(self).unhindered(*final(self), *old(strategy), *final(strategy)) ==> r is Ok
            },
    {
        proof {
            talked_not(*strategy, self.talk@);
        }
        let ghost start = *self;
        proof {
            start.advances_itself();
            one_shot_fires(start.clock.timers(), start.clock.last_sequence(), ts.0 as int);
        }
        let fired = self.clock.advance_to(ts)?;
        let ghost moved = *self;
        let ghost keys = start.due_by(ts);
        assert(start.moves_clock(moved, ts));
        assert(start.carried(moved));
        assert(keys.take(0) =~= Seq::<TimerKey>::empty());
        let mut i: usize = 0;
        while i < fired.len()
            invariant
                i <= fired@.len(),
                start == *old(self),
                start.clock.time() <= ts.0,
                start.moves_clock(moved, ts),
                keys == start.due_by(ts),
                fired@.len() == keys.len(),
                forall|j: int|
                    0 <= j < fired@.len() ==> event_key(#[trigger] fired@[j]) == keys[j],
                self.sound(),
                strategy.ready(),
                old(strategy).willing() ==> strategy.willing(),
                talked(*old(strategy), *strategy, old(self).talk@, self.talk@),
                start.carried(*self),
                self.split == start.split,
                moved.hears(*self, keys.take(i as int)),
                moved.clock.time() == ts.0,
                self.clock.time() == ts.0,
            decreases fired@.len() - i,
        {
            let ghost before = *self;
            let ghost asked = *strategy;
            let done = self.tell_timer(strategy, &fired[i]);
            proof {
                Self::free_all_along(
                    old(self).talk@,
                    before.talk@,
                    *self,
                    *old(strategy),
                    asked,
                    *strategy,
                );
            }
            done?;
            proof {
                talked_again(
                    *old(strategy),
                    asked,
                    *strategy,
                    old(self).talk@,
                    before.talk@,
                    self.talk@,
                );
                Self::heeded_advances(before, *self);
                Self::advancing_carries(before, *self);
                Self::carried_again(start, before, *self);
                let told = keys.take(i + 1);
                assert(told.drop_last() =~= keys.take(i as int));
                assert(before.listens(*self, Told::Timer(told.last())));
            }
            i += 1;
        }
        assert(keys.take(i as int) =~= keys);
        Ok(())
    }

    /// One record counted.
    pub(crate) open spec fn counts(self, after: Self, record: Record) -> bool {
        let kinds = self.journal.metrics.records_by_kind@;
        let kind = event_kind(record.event);
        &&& after == (Engine { journal: after.journal, ..self })
        &&& after.journal == (Journal {
            records: bumped(self.journal.records),
            metrics: after.journal.metrics,
            simulated_through: Some(record.stamps.ts_init),
            ..self.journal
        })
        &&& after.journal.metrics == (RunMetrics {
            records_by_kind: after.journal.metrics.records_by_kind,
            ..self.journal.metrics
        })
        &&& after.journal.metrics.records_by_kind@ == kinds.insert(
            kind,
            bumped(count_of(kinds, kind)),
        )
    }

    /// Time has moved on to a record, and markets due to stop have stopped.
    #[verifier::opaque]
    pub(crate) open spec fn got_timed(self, record: Record, t: Trail<Self>) -> bool {
        &&& self.wakes(t.timed, record.stamps.ts_init)
        &&& t.timed.expires_by(t.expired, record.stamps.ts_init)
    }

    /// The venue has the data.
    #[verifier::opaque]
    pub(crate) open spec fn got_applied(self, record: Record, t: Trail<Self>) -> bool {
        self.got_timed(record, t) && t.applied.sound() && t.expired.applies(t.applied, record)
    }

    /// A print has worked through the passive queue.
    #[verifier::opaque]
    pub(crate) open spec fn got_printed(self, record: Record, t: Trail<Self>) -> bool {
        &&& self.got_applied(record, t)
        &&& t.printed.sound()
        &&& match record.event {
            MarketEvent::Trade { price, size, aggressor } => t.applied.works_trade(
                t.printed,
                record,
                price,
                size,
                aggressor,
            ),
            _ => t.printed == t.applied,
        }
    }

    /// Resting orders the new book crosses have been tried.
    #[verifier::opaque]
    pub(crate) open spec fn got_matched(self, record: Record, t: Trail<Self>) -> bool {
        let market: KeyView = (record.instrument@, record.outcome.0);
        self.got_printed(record, t) && t.printed.reacts(t.matched, record, market)
    }

    /// The account's margin call has been answered.
    #[verifier::opaque]
    pub(crate) open spec fn got_called(self, record: Record, t: Trail<Self>) -> bool {
        self.got_matched(record, t) && t.matched.answers(t.called, record.stamps.ts_init)
    }

    /// Isolated calls have been answered.
    #[verifier::opaque]
    pub(crate) open spec fn got_isolated(self, record: Record, t: Trail<Self>) -> bool {
        self.got_called(record, t) && t.called.answers_isolated(
            t.isolated,
            record.stamps.ts_init,
        )
    }

    /// Stops the mark has reached have been released.
    #[verifier::opaque]
    pub(crate) open spec fn got_armed(self, record: Record, t: Trail<Self>) -> bool {
        self.got_isolated(record, t) && t.isolated.releases_stops(t.armed, record.stamps.ts_init)
    }

    /// Schedules have been moved on.
    #[verifier::opaque]
    pub(crate) open spec fn got_worked(self, record: Record, t: Trail<Self>) -> bool {
        self.got_armed(record, t) && t.armed.works_schedules(t.worked, record.stamps.ts_init)
    }

    /// The strategy has been told.
    #[verifier::opaque]
    pub(crate) open spec fn got_told(self, record: Record, t: Trail<Self>) -> bool {
        &&& self.got_worked(record, t)
        &&& t.told.sound()
        &&& t.worked.listens(t.told, Told::Event(record))
    }

    /// What was due at the venue has arrived, and the record is counted.
    #[verifier::opaque]
    pub(crate) open spec fn got_counted(self, record: Record, t: Trail<Self>) -> bool {
        &&& self.got_told(record, t)
        &&& t.told.delivers(t.delivered, record.stamps.ts_init)
        &&& t.delivered.counts(t.counted, record)
    }

    /// One record played through, by way of the states it passes.
    pub(crate) open spec fn passes(self, after: Self, record: Record, t: Trail<Self>) -> bool {
        self.got_counted(record, t) && t.counted.samples(after, record.stamps.ts_init)
    }

    /// One record played through.
    #[verifier::opaque]
    pub(crate) open spec fn steps(self, after: Self, record: Record) -> bool {
        exists|t: Trail<Self>| #[trigger] self.passes(after, record, t)
    }

    /// Whether a print comes to a fill that cannot be made.
    pub(crate) open spec fn print_fails(self, record: Record) -> bool {
        record.event matches MarketEvent::Trade { price, size, aggressor } && self.trade_fills(
            record,
            price,
            size,
            aggressor,
            true,
        )
    }

    /// Whether trying the resting orders a record offers another chance comes
    /// to a fill that cannot be made.
    pub(crate) open spec fn match_fails(self, record: Record) -> bool {
        exists|ids: Seq<OrderId>| #[trigger]
            self.offers(record, (record.instrument@, record.outcome.0), ids)
                && self.comes_to_trade(ids, record.stamps.ts_init, true)
    }

    /// Whether answering isolated calls comes to a figure that cannot be
    /// worked out, or to a close that cannot be made.
    pub(crate) open spec fn isolated_fails(self, ts: UnixNanos) -> bool {
        exists|e: BacktestError| #[trigger] self.isolated_stops(e, ts, true)
    }

    /// Where playing a record through comes to a stop though the strategy
    /// stands in no way: the record is from the past or cannot be applied,
    /// or something the venue does on the way cannot be done.
    #[verifier::opaque]
    pub(crate) open spec fn cannot_step(self, record: Record) -> bool {
        let ts = record.stamps.ts_init;
        ||| ts.0 < self.clock.time()
        ||| exists|t: Trail<Self>| #[trigger]
            self.got_timed(record, t) && t.expired.may_fail(record)
        ||| exists|t: Trail<Self>| #[trigger]
            self.got_applied(record, t) && t.applied.print_fails(record)
        ||| exists|t: Trail<Self>| #[trigger]
            self.got_printed(record, t) && t.printed.match_fails(record)
        ||| exists|t: Trail<Self>| #[trigger]
            self.got_matched(record, t) && t.matched.call_stops(ts, true)
        ||| exists|t: Trail<Self>| #[trigger]
            self.got_called(record, t) && t.called.isolated_fails(ts)
        ||| exists|t: Trail<Self>| #[trigger]
            self.got_isolated(record, t) && t.isolated.stop_trades(ts, true)
        ||| exists|t: Trail<Self>| #[trigger]
            self.got_armed(record, t) && t.armed.slice_trades(ts, true)
        ||| exists|t: Trail<Self>| #[trigger]
            self.got_told(record, t) && t.told.delivery_stops(ts, true)
        ||| exists|t: Trail<Self>| #[trigger]
            self.got_counted(record, t) && t.counted.sample_due(ts) && t.counted.cannot_value()
    }

    // A step gets from one stage to the next.
    proof fn reach_timed(self, record: Record, t: Trail<Self>, timed: Self, expired: Self)
        requires
            self.wakes(timed, record.stamps.ts_init),
            timed.expires_by(expired, record.stamps.ts_init),
        ensures
            self.got_timed(record, (Trail { timed, expired, ..t })),
    {
        reveal(Engine::got_timed);
    }

    proof fn reach_applied(self, record: Record, t: Trail<Self>, applied: Self)
        requires
            self.got_timed(record, t),
            applied.sound(),
            t.expired.applies(applied, record),
        ensures
            self.got_applied(record, (Trail { applied, ..t })),
    {
        reveal(Engine::got_timed);
        reveal(Engine::got_applied);
    }

    proof fn reach_printed(self, record: Record, t: Trail<Self>, printed: Self)
        requires
            self.got_applied(record, t),
            printed.sound(),
            match record.event {
                MarketEvent::Trade { price, size, aggressor } => t.applied.works_trade(
                    printed,
                    record,
                    price,
                    size,
                    aggressor,
                ),
                _ => printed == t.applied,
            },
        ensures
            self.got_printed(record, (Trail { printed, ..t })),
    {
        reveal(Engine::got_timed);
        reveal(Engine::got_applied);
        reveal(Engine::got_printed);
    }

    proof fn reach_matched(self, record: Record, t: Trail<Self>, matched: Self)
        requires
            self.got_printed(record, t),
            t.printed.reacts(matched, record, (record.instrument@, record.outcome.0)),
        ensures
            self.got_matched(record, (Trail { matched, ..t })),
    {
        reveal(Engine::got_timed);
        reveal(Engine::got_applied);
        reveal(Engine::got_printed);
        reveal(Engine::got_matched);
    }

    proof fn reach_called(self, record: Record, t: Trail<Self>, called: Self)
        requires
            self.got_matched(record, t),
            t.matched.answers(called, record.stamps.ts_init),
        ensures
            self.got_called(record, (Trail { called, ..t })),
    {
        reveal(Engine::got_timed);
        reveal(Engine::got_applied);
        reveal(Engine::got_printed);
        reveal(Engine::got_matched);
        reveal(Engine::got_called);
    }

    proof fn reach_isolated(self, record: Record, t: Trail<Self>, isolated: Self)
        requires
            self.got_called(record, t),
            t.called.answers_isolated(isolated, record.stamps.ts_init),
        ensures
            self.got_isolated(record, (Trail { isolated, ..t })),
    {
        reveal(Engine::got_timed);
        reveal(Engine::got_applied);
        reveal(Engine::got_printed);
        reveal(Engine::got_matched);
        reveal(Engine::got_called);
        reveal(Engine::got_isolated);
    }

    proof fn reach_armed(self, record: Record, t: Trail<Self>, armed: Self)
        requires
            self.got_isolated(record, t),
            t.isolated.releases_stops(armed, record.stamps.ts_init),
        ensures
            self.got_armed(record, (Trail { armed, ..t })),
    {
        reveal(Engine::got_timed);
        reveal(Engine::got_applied);
        reveal(Engine::got_printed);
        reveal(Engine::got_matched);
        reveal(Engine::got_called);
        reveal(Engine::got_isolated);
        reveal(Engine::got_armed);
    }

    proof fn reach_worked(self, record: Record, t: Trail<Self>, worked: Self)
        requires
            self.got_armed(record, t),
            t.armed.works_schedules(worked, record.stamps.ts_init),
        ensures
            self.got_worked(record, (Trail { worked, ..t })),
    {
        reveal(Engine::got_timed);
        reveal(Engine::got_applied);
        reveal(Engine::got_printed);
        reveal(Engine::got_matched);
        reveal(Engine::got_called);
        reveal(Engine::got_isolated);
        reveal(Engine::got_armed);
        reveal(Engine::got_worked);
    }

    proof fn reach_told(self, record: Record, t: Trail<Self>, told: Self)
        requires
            self.got_worked(record, t),
            told.sound(),
            t.worked.listens(told, Told::Event(record)),
        ensures
            self.got_told(record, (Trail { told, ..t })),
    {
        reveal(Engine::got_timed);
        reveal(Engine::got_applied);
        reveal(Engine::got_printed);
        reveal(Engine::got_matched);
        reveal(Engine::got_called);
        reveal(Engine::got_isolated);
        reveal(Engine::got_armed);
        reveal(Engine::got_worked);
        reveal(Engine::got_told);
    }

    proof fn reach_counted(self, record: Record, t: Trail<Self>, delivered: Self, counted: Self)
        requires
            self.got_told(record, t),
            t.told.delivers(delivered, record.stamps.ts_init),
            delivered.counts(counted, record),
        ensures
            self.got_counted(record, (Trail { delivered, counted, ..t })),
    {
        reveal(Engine::got_timed);
        reveal(Engine::got_applied);
        reveal(Engine::got_printed);
        reveal(Engine::got_matched);
        reveal(Engine::got_called);
        reveal(Engine::got_isolated);
        reveal(Engine::got_armed);
        reveal(Engine::got_worked);
        reveal(Engine::got_told);
        reveal(Engine::got_counted);
    }

    // A step that gets to a stage and cannot go on from there cannot be taken.
    proof fn fails_at_wake(self, record: Record)
        requires
            record.stamps.ts_init.0 < self.clock.time(),
        ensures
            self.cannot_step(record),
    {
        reveal(Engine::cannot_step);
    }

    proof fn fails_at_apply(self, record: Record, t: Trail<Self>)
        requires
            self.got_timed(record, t),
            t.expired.may_fail(record),
        ensures
            self.cannot_step(record),
    {
        reveal(Engine::cannot_step);
    }

    proof fn fails_at_print(self, record: Record, t: Trail<Self>)
        requires
            self.got_applied(record, t),
            t.applied.print_fails(record),
        ensures
            self.cannot_step(record),
    {
        reveal(Engine::cannot_step);
    }

    proof fn fails_at_match(self, record: Record, t: Trail<Self>)
        requires
            self.got_printed(record, t),
            t.printed.match_fails(record),
        ensures
            self.cannot_step(record),
    {
        reveal(Engine::cannot_step);
    }

    proof fn fails_at_call(self, record: Record, t: Trail<Self>)
        requires
            self.got_matched(record, t),
            t.matched.call_stops(record.stamps.ts_init, true),
        ensures
            self.cannot_step(record),
    {
        reveal(Engine::cannot_step);
    }

    proof fn fails_at_isolated(self, record: Record, t: Trail<Self>)
        requires
            self.got_called(record, t),
            t.called.isolated_fails(record.stamps.ts_init),
        ensures
            self.cannot_step(record),
    {
        reveal(Engine::cannot_step);
    }

    proof fn fails_at_stops(self, record: Record, t: Trail<Self>)
        requires
            self.got_isolated(record, t),
            t.isolated.stop_trades(record.stamps.ts_init, true),
        ensures
            self.cannot_step(record),
    {
        reveal(Engine::cannot_step);
    }

    proof fn fails_at_slices(self, record: Record, t: Trail<Self>)
        requires
            self.got_armed(record, t),
            t.armed.slice_trades(record.stamps.ts_init, true),
        ensures
            self.cannot_step(record),
    {
        reveal(Engine::cannot_step);
    }

    proof fn fails_at_delivery(self, record: Record, t: Trail<Self>)
        requires
            self.got_told(record, t),
            t.told.delivery_stops(record.stamps.ts_init, true),
        ensures
            self.cannot_step(record),
    {
        reveal(Engine::cannot_step);
    }

    proof fn fails_at_sample(self, record: Record, t: Trail<Self>)
        requires
            self.got_counted(record, t),
            t.counted.sample_due(record.stamps.ts_init),
            t.counted.cannot_value(),
        ensures
            self.cannot_step(record),
    {
        reveal(Engine::cannot_step);
    }

    /// The venue has done what it does of its own accord on a record.
    pub(crate) open spec fn turns(self, after: Self, record: Record) -> bool {
        exists|t: Trail<Self>| #[trigger] self.got_worked(record, t) && t.worked == after
    }

    /// Let the venue act on one record, as far as it does so of its own
    /// accord.
    fn take_turn<S: Strategy>(&mut self, record: &Record, strategy: &mut S) -> (r: Result<
        (),
        BacktestError,
    >)
        requires
            old(self).sound(),
            old(strategy).ready(),
        ensures
            final(self).sound(),
            final(strategy).ready(),
            old(strategy).willing() ==> final(strategy).willing(),
            r is Ok ==> talked(*old(strategy), *final(strategy), old(self).talk@, final(self).talk@),
            r is Ok ==> old(self).turns(*final(self), *record),
            r is Ok ==> old(self).carried(*final(self)),
            r is Ok && !is_split(*record) ==> final(self).split == old(self).split,
            record.stamps.ts_init.0 < old(self).clock.time() ==> (r matches Err(e) && went_back(
                old(self).clock,
                record.stamps.ts_init,
                e,
            )),
            old(self).unhindered(*final(self), *old(strategy), *final(strategy)) && r is Err ==> old(self).cannot_step(*record),
    {
        let ghost start = *self;
        let ts = record.stamps.ts_init;
        let ghost mut t = Trail {
            timed: start,
            expired: start,
            applied: start,
            printed: start,
            matched: start,
            called: start,
            isolated: start,
            armed: start,
            worked: start,
            told: start,
            delivered: start,
            counted: start,
        };
        let done = self.wake(ts, strategy);
        proof {
            if start.unhindered(*self, *old(strategy), *strategy) && done is Err {
                start.fails_at_wake(*record);
            }
        }
        done?;
        let ghost timed = *self;
        self.expire_due(ts);
        let ghost expired = *self;
        proof {
            timed.advances_itself();
            assert(timed.carried(expired));
            Self::carried_again(start, timed, expired);
            start.reach_timed(*record, t, timed, expired);
            t = Trail { timed, expired, ..t };
        }
        let key = key_for(&record.instrument, record.outcome);
        let done = self.apply_to_books(record, &key);
        proof {
            if done is Err {
                start.fails_at_apply(*record, t);
            }
        }
        done?;
        let ghost applied = *self;
        proof {
            Self::carried_again(start, expired, applied);
            applied.advances_itself();
            start.reach_applied(*record, t, applied);
            t = Trail { applied, ..t };
        }
        let ghost heard = *strategy;
        proof {
            talked_not(heard, self.talk@);
        }
        if let MarketEvent::Trade { price, size, aggressor } = &record.event {
            let done = self.consume_queue(record, *price, *size, *aggressor, strategy);
            proof {
                Self::free_all_along(
                    start.talk@,
                    applied.talk@,
                    *self,
                    *old(strategy),
                    heard,
                    *strategy,
                );
                if start.unhindered(*self, *old(strategy), *strategy) && done is Err {
                    assert(applied.print_fails(*record));
                    start.fails_at_print(*record, t);
                }
            }
            done?;
        }
        let ghost printed = *self;
        proof {
            talked_again(
                *old(strategy),
                heard,
                *strategy,
                start.talk@,
                applied.talk@,
                self.talk@,
            );
            start.reach_printed(*record, t, printed);
            t = Trail { printed, ..t };
        }
        let ghost heard = *strategy;
        let done = self.match_resting(record, &key, strategy);
        proof {
            Self::free_all_along(
                start.talk@,
                printed.talk@,
                *self,
                *old(strategy),
                heard,
                *strategy,
            );
            if start.unhindered(*self, *old(strategy), *strategy) && done is Err {
                assert(printed.match_fails(*record));
                start.fails_at_match(*record, t);
            }
        }
        done?;
        let ghost matched = *self;
        proof {
            talked_again(
                *old(strategy),
                heard,
                *strategy,
                start.talk@,
                printed.talk@,
                self.talk@,
            );
            start.reach_matched(*record, t, matched);
            t = Trail { matched, ..t };
        }
        let ghost heard = *strategy;
        let done = self.check_liquidation(ts, strategy);
        proof {
            Self::free_all_along(
                start.talk@,
                matched.talk@,
                *self,
                *old(strategy),
                heard,
                *strategy,
            );
            if start.unhindered(*self, *old(strategy), *strategy) && done is Err {
                start.fails_at_call(*record, t);
            }
        }
        done?;
        let ghost called = *self;
        proof {
            talked_again(
                *old(strategy),
                heard,
                *strategy,
                start.talk@,
                matched.talk@,
                self.talk@,
            );
            start.reach_called(*record, t, called);
            t = Trail { called, ..t };
        }
        let ghost heard = *strategy;
        let done = self.check_isolated_liquidation(ts, strategy);
        proof {
            Self::free_all_along(
                start.talk@,
                called.talk@,
                *self,
                *old(strategy),
                heard,
                *strategy,
            );
            if start.unhindered(*self, *old(strategy), *strategy) && done is Err {
                assert(called.isolated_stops(done->Err_0, ts, true));
                assert(called.isolated_fails(ts));
                start.fails_at_isolated(*record, t);
            }
        }
        done?;
        let ghost isolated = *self;
        proof {
            talked_again(
                *old(strategy),
                heard,
                *strategy,
                start.talk@,
                called.talk@,
                self.talk@,
            );
            start.reach_isolated(*record, t, isolated);
            t = Trail { isolated, ..t };
        }
        let ghost heard = *strategy;
        let done = self.arm_triggers(ts, strategy);
        proof {
            Self::free_all_along(
                start.talk@,
                isolated.talk@,
                *self,
                *old(strategy),
                heard,
                *strategy,
            );
            if start.unhindered(*self, *old(strategy), *strategy) && done is Err {
                start.fails_at_stops(*record, t);
            }
        }
        done?;
        let ghost armed = *self;
        proof {
            talked_again(
                *old(strategy),
                heard,
                *strategy,
                start.talk@,
                isolated.talk@,
                self.talk@,
            );
            start.reach_armed(*record, t, armed);
            t = Trail { armed, ..t };
        }
        let ghost heard = *strategy;
        let done = self.work_twaps(ts, strategy);
        proof {
            Self::free_all_along(
                start.talk@,
                armed.talk@,
                *self,
                *old(strategy),
                heard,
                *strategy,
            );
            if start.unhindered(*self, *old(strategy), *strategy) && done is Err {
                start.fails_at_slices(*record, t);
            }
        }
        done?;
        let ghost worked = *self;
        proof {
            talked_again(
                *old(strategy),
                heard,
                *strategy,
                start.talk@,
                armed.talk@,
                self.talk@,
            );
            start.reach_worked(*record, t, worked);
            t = Trail { worked, ..t };
            Self::advanced_again(applied, printed, matched);
            Self::advanced_again(applied, matched, called);
            Self::advanced_again(applied, called, isolated);
            Self::advanced_again(applied, isolated, armed);
            Self::advanced_again(applied, armed, worked);
            Self::advancing_carries(applied, worked);
            Self::carried_again(start, applied, worked);
        }
        Ok(())
    }

    /// Play one record through.
    ///
    /// The venue sees the data before anyone else; whatever it does of its
    /// own accord is done before the strategy gets a turn; and what the
    /// strategy asks for reaches the venue only after that.
    pub(crate) fn step<S: Strategy>(&mut self, record: &Record, strategy: &mut S) -> (r: Result<
        (),
        BacktestError,
    >)
        requires
            old(self).sound(),
            old(strategy).ready(),
        ensures
            final(self).sound(),
            final(strategy).ready(),
            old(strategy).willing() ==> final(strategy).willing(),
            r is Ok ==> talked(*old(strategy), *final(strategy), old(self).talk@, final(self).talk@),
            r is Ok ==> old(self).steps(*final(self), *record),
            r is Ok ==> old(self).carried(*final(self)),
            r is Ok && !is_split(*record) ==> final(self).split == old(self).split,
            r is Ok ==> final(self).journal.simulated_through == Some(record.stamps.ts_init),
            record.stamps.ts_init.0 < old(self).clock.time() ==> (r matches Err(e) && went_back(
                old(self).clock,
                record.stamps.ts_init,
                e,
            )),
            old(self).unhindered(*final(self), *old(strategy), *final(strategy)) && r is Err ==> old(self).cannot_step(*record),
    {
        let ghost start = *self;
        let ts = record.stamps.ts_init;
        self.take_turn(record, strategy)?;
        let ghost worked = *self;
        let ghost mut t = choose|t: Trail<Self>| #[trigger]
            start.got_worked(*record, t) && t.worked == worked;
        let ghost heard = *strategy;
        let done = self.tell_event(strategy, record);
        proof {
            Self::free_all_along(
                start.talk@,
                worked.talk@,
                *self,
                *old(strategy),
                heard,
                *strategy,
            );
        }
        done?;
        let ghost told = *self;
        proof {
            Self::heeded_advances(worked, told);
            talked_again(
                *old(strategy),
                heard,
                *strategy,
                start.talk@,
                worked.talk@,
                told.talk@,
            );
            start.reach_told(*record, t, told);
            t = Trail { told, ..t };
        }
        let ghost heard = *strategy;
        let done = self.release_inflight(ts, strategy);
        proof {
            Self::free_all_along(
                start.talk@,
                told.talk@,
                *self,
                *old(strategy),
                heard,
                *strategy,
            );
            if start.unhindered(*self, *old(strategy), *strategy) && done is Err {
                start.fails_at_delivery(*record, t);
            }
        }
        done?;
        let ghost delivered = *self;
        proof {
            talked_again(
                *old(strategy),
                heard,
                *strategy,
                start.talk@,
                told.talk@,
                delivered.talk@,
            );
            Self::advanced_again(worked, told, delivered);
            Self::advancing_carries(worked, delivered);
            Self::carried_again(start, worked, delivered);
        }
        self.journal.records = one_more(self.journal.records);
        self.journal.metrics.record(record.event.kind());
        self.journal.simulated_through = Some(ts);
        let ghost counted = *self;
        proof {
            start.reach_counted(*record, t, delivered, counted);
            t = Trail { delivered, counted, ..t };
        }
        let done = self.sample_equity(ts);
        proof {
            if done is Err {
                start.fails_at_sample(*record, t);
            }
        }
        done?;
        proof {
            delivered.advances_itself();
            assert(delivered.carried(*self));
            Self::carried_again(start, delivered, *self);
            assert(start.passes(*self, *record, t));
            reveal(Engine::steps);
        }
        Ok(())
    }

    /// Records played through one after another.
    pub(crate) open spec fn plays(self, after: Self, records: Seq<Record>) -> bool
        decreases records.len(),
    {
        if records.len() == 0 {
            after == self
        } else {
            exists|between: Self|
                self.plays(between, records.drop_last()) && #[trigger] between.steps(
                    after,
                    records.last(),
                )
        }
    }

    /// The counters of how orders ended, brought up to date. They are over
    /// every order on file, including the venue's own.
    pub(crate) open spec fn tallies(self, after: Self) -> bool {
        let orders = self.desk.orders.seq();
        after == (Engine {
            journal: Journal {
                metrics: RunMetrics {
                    orders_filled: ended(orders, Ending::Filled) as u64,
                    orders_partially_filled: ended(orders, Ending::Partial) as u64,
                    orders_cancelled_unfilled: ended(orders, Ending::CancelledUnfilled) as u64,
                    ..self.journal.metrics
                },
                ..self.journal
            },
            ..self
        })
    }

    /// Whether the equity curve stops short of the last instant simulated.
    pub(crate) open spec fn curve_open(self) -> bool {
        match self.journal.simulated_through {
            None => false,
            Some(ts) => self.journal.equity@.len() == 0 || self.journal.equity@.last().ts != ts,
        }
    }

    /// The equity curve closed on the last instant actually simulated.
    pub(crate) open spec fn closes_curve(self, after: Self) -> bool {
        if self.curve_open() {
            self.pushes_equity(after, self.journal.simulated_through->Some_0)
        } else {
            after == self
        }
    }

    /// What a result says of a finished run.
    pub closed spec fn reports(&self, result: RunResult) -> bool {
        self.is_said(result)
    }

    /// What [`Engine::reports`] says.
    pub(crate) open spec fn is_said(&self, result: RunResult) -> bool {
        &&& result.fills@ == self.ledger.fills@
        &&& result.orders@ == self.desk.orders.seq().map_values(|e: (u64, Order)| e.1)
        &&& result.final_cash == self.ledger.cash
        &&& result.starting_cash == self.ledger.starting_cash
        &&& money_total(realized_items(self.ledger.portfolio.listed())) == Ok::<
            Money,
            BacktestError,
        >(result.realized_pnl)
        &&& money_total(commission_items(self.ledger.portfolio.listed())) == Ok::<
            Money,
            BacktestError,
        >(result.commissions)
        &&& result.simulated_through == self.journal.simulated_through
        &&& result.records_processed == self.journal.records
        &&& result.marks.wf()
        &&& result.marks@ == self.market.marks@
        &&& result.equity@ == self.journal.equity@
        &&& result.funding_paid == self.ledger.funding_paid
        &&& result.dividends_received == self.ledger.dividends_received
        &&& result.liquidations@ == self.journal.liquidations@
        &&& result.rejected_for_margin == self.journal.rejected_for_margin
        &&& result.self_trades_prevented == self.journal.self_trades_prevented
        &&& same_operations(self.journal.set_operations@, result.set_operations@)
        &&& result.forecasts@ == self.journal.forecasts@
        &&& result.mark_curve@ == self.journal.mark_curve@
        &&& result.expirations@ == self.board.expirations@
        &&& result.twaps@ == self.desk.twaps@
        &&& result.metrics == (RunMetrics {
            records_by_kind: result.metrics.records_by_kind,
            ..self.journal.metrics
        })
        &&& result.metrics.wf()
        &&& result.metrics.records_by_kind@ == self.journal.metrics.records_by_kind@
    }

    /// A run brought to its end.
    pub closed spec fn finishes(self, after: Self) -> bool {
        exists|tallied: Self| #[trigger] self.tallies(tallied) && tallied.closes_curve(after)
    }

    pub(crate) proof fn finishing_keeps_the_books(self, after: Self)
        requires
            self.finishes(after),
        ensures
            after.ledger == self.ledger,
            after.clock == self.clock,
            after.talk == self.talk,
            exists|tallied: Self| #[trigger] self.tallies(tallied) && tallied.closes_curve(after),
    {
    }

    /// The stages of a run, and what its report says.
    pub(crate) proof fn a_run_and_its_report(self, after: Self, records: Seq<Record>, r: RunResult)
        ensures
            self.runs(&after, records) == exists|started: Self, played: Self, stopped: Self|
                #[trigger]
                self.runs_by(after, records, started, played, stopped),
            after.reports(r) == after.is_said(r),
    {
    }

    /// Finishing a finished run changes nothing, and both reports say the
    /// same.
    pub proof fn finishing_again_changes_nothing(
        self,
        after: Self,
        again: Self,
        first: RunResult,
        second: RunResult,
    )
        requires
            self.finishes(after),
            after.finishes(again),
            after.reports(first),
            again.reports(second),
        ensures
            again == after,
            first.same_as(second),
    {
        let tallied = choose|tallied: Self| #[trigger]
            self.tallies(tallied) && tallied.closes_curve(after);
        let recounted = choose|recounted: Self| #[trigger]
            after.tallies(recounted) && recounted.closes_curve(again);
        assert(after.desk == self.desk);
        assert(!after.curve_open());
        assert(recounted == after);
    }

    /// A run that has been reported can be reported again: once its curve is
    /// closed and its figures fit, nothing is left that could fail.
    pub proof fn a_finished_run_can_be_reported_again(self, after: Self, first: RunResult)
        requires
            self.finishes(after),
            after.reports(first),
        ensures
            !after.cannot_finish(),
    {
        assert(!after.curve_open());
    }

    /// A finished run counts as filled the orders that were, as partly filled
    /// those left open or cancelled with something done, and as cancelled
    /// those cancelled with nothing done; and its equity curve ends on the
    /// last instant simulated.
    pub proof fn a_report_counts_how_orders_ended(self, after: Self, result: RunResult)
        requires
            self.finishes(after),
            after.reports(result),
        ensures
            result.metrics.orders_filled == result.orders@.filter(
                |o: Order| o.status == OrderStatus::Filled,
            ).len(),
            result.metrics.orders_partially_filled == result.orders@.filter(
                |o: Order|
                    o.status == OrderStatus::PartiallyFilled || o.status == OrderStatus::Cancelled
                        && o.filled.0 != 0,
            ).len(),
            result.metrics.orders_cancelled_unfilled == result.orders@.filter(
                |o: Order| o.status == OrderStatus::Cancelled && o.filled.0 == 0,
            ).len(),
            result.simulated_through matches Some(ts) ==> result.equity@.len() > 0
                && result.equity@.last().ts == ts,
    {
        let tallied = choose|tallied: Self| #[trigger]
            self.tallies(tallied) && tallied.closes_curve(after);
        let orders = self.desk.orders.seq();
        assert(after.desk == self.desk);
        assert(result.orders.len() == orders.len());
        ended_at_most(orders, Ending::Filled);
        ended_at_most(orders, Ending::Partial);
        ended_at_most(orders, Ending::CancelledUnfilled);
        ended_are_those(orders, Ending::Filled, |o: Order| o.status == OrderStatus::Filled);
        ended_are_those(
            orders,
            Ending::Partial,
            |o: Order|
                o.status == OrderStatus::PartiallyFilled || o.status == OrderStatus::Cancelled
                    && o.filled.0 != 0,
        );
        ended_are_those(
            orders,
            Ending::CancelledUnfilled,
            |o: Order| o.status == OrderStatus::Cancelled && o.filled.0 == 0,
        );
    }

    /// A figure of the final report does not fit.
    pub closed spec fn cannot_finish(self) -> bool {
        ||| self.curve_open() && self.cannot_value()
        ||| money_total(realized_items(self.ledger.portfolio.listed())) is Err
        ||| money_total(commission_items(self.ledger.portfolio.listed())) is Err
    }

    /// Bring the counters up to date, close the equity curve, and report.
    ///
    /// Every figure is worked out from what is on file rather than added to,
    /// so a second call reports the run and not the number of times it was
    /// asked.
    pub(crate) fn finish(&mut self) -> (r: Result<RunResult, BacktestError>)
        requires
            old(self).sound(),
        ensures
            final(self).sound(),
            final(self).talk == old(self).talk,
            final(self).split == old(self).split,
            r matches Ok(result) ==> old(self).finishes(*final(self)) && final(self).reports(
                result,
            ),
            r is Ok ==> old(self).carried(*final(self)),
            r is Ok ==> !final(self).cannot_finish(),
            r is Err ==> old(self).cannot_finish(),
    {
        let ghost start = *self;
        let ghost orders = self.desk.orders.seq();
        let mut filled: u64 = 0;
        let mut partial: u64 = 0;
        let mut cancelled_unfilled: u64 = 0;
        let n: usize = self.desk.orders.len();
        let mut i: usize = 0;
        assert(orders.take(0) =~= Seq::<(u64, Order)>::empty());
        while i < n
            invariant
                i <= n,
                n == orders.len(),
                orders == self.desk.orders.seq(),
                filled == ended(orders.take(i as int), Ending::Filled),
                partial == ended(orders.take(i as int), Ending::Partial),
                cancelled_unfilled == ended(orders.take(i as int), Ending::CancelledUnfilled),
            decreases n - i,
        {
            proof {
                assert(orders.take(i + 1).drop_last() =~= orders.take(i as int));
                ended_at_most(orders.take(i as int), Ending::Filled);
                ended_at_most(orders.take(i as int), Ending::Partial);
                ended_at_most(orders.take(i as int), Ending::CancelledUnfilled);
            }
            let order = self.desk.orders.value_at(i);
            match order.status {
                OrderStatus::Filled => {
                    filled = filled + 1;
                },
                OrderStatus::PartiallyFilled => {
                    partial = partial + 1;
                },
                OrderStatus::Cancelled => {
                    if order.filled.0 == 0 {
                        cancelled_unfilled = cancelled_unfilled + 1;
                    } else {
                        partial = partial + 1;
                    }
                },
                _ => {},
            }
            i += 1;
        }
        assert(orders.take(i as int) =~= orders);
        self.journal.metrics.orders_filled = filled;
        self.journal.metrics.orders_partially_filled = partial;
        self.journal.metrics.orders_cancelled_unfilled = cancelled_unfilled;
        let ghost tallied = *self;
        assert(start.tallies(tallied));
        if let Some(ts) = self.journal.simulated_through {
            let count: usize = self.journal.equity.len();
            let open = if count == 0 {
                true
            } else {
                self.journal.equity[count - 1].ts.0 != ts.0
            };
            if open {
                self.push_equity(ts)?;
            }
        }
        proof {
            assert(tallied.closes_curve(*self));
            start.advances_itself();
        }
        self.report()
    }

    /// What there is to say of the run so far.
    fn report(&self) -> (r: Result<RunResult, BacktestError>)
        requires
            self.sound(),
        ensures
            match r {
                Ok(result) => self.reports(result),
                Err(_) => money_total(realized_items(self.ledger.portfolio.listed())) is Err
                    || money_total(commission_items(self.ledger.portfolio.listed())) is Err,
            },
    {
        let realized_pnl = self.ledger.portfolio.realized_pnl()?;
        let commissions = self.ledger.portfolio.commissions()?;
        let result = RunResult {
            fills: copy_all(&self.ledger.fills),
            orders: copy_orders(&self.desk.orders),
            final_cash: self.ledger.cash,
            starting_cash: self.ledger.starting_cash,
            realized_pnl,
            commissions,
            simulated_through: self.journal.simulated_through,
            records_processed: self.journal.records,
            marks: copy_prices(&self.market.marks),
            equity: copy_all(&self.journal.equity),
            funding_paid: self.ledger.funding_paid,
            dividends_received: self.ledger.dividends_received,
            liquidations: copy_all(&self.journal.liquidations),
            rejected_for_margin: self.journal.rejected_for_margin,
            self_trades_prevented: self.journal.self_trades_prevented,
            set_operations: copy_operations(&self.journal.set_operations),
            forecasts: copy_all(&self.journal.forecasts),
            mark_curve: copy_all(&self.journal.mark_curve),
            expirations: copy_expirations(&self.board.expirations),
            twaps: copy_all(&self.desk.twaps),
            metrics: self.journal.metrics.clone(),
        };
        proof {
            assert(result.fills@ =~= self.ledger.fills@);
            assert(result.equity@ =~= self.journal.equity@);
            assert(result.liquidations@ =~= self.journal.liquidations@);
            assert(result.forecasts@ =~= self.journal.forecasts@);
            assert(result.mark_curve@ =~= self.journal.mark_curve@);
            assert(result.twaps@ =~= self.desk.twaps@);
        }
        Ok(result)
    }

    /// A whole run, by way of its stages: the strategy told that it starts,
    /// every record played through in order, the strategy told that it is
    /// over, and the books closed.
    pub(crate) open spec fn runs_by(
        self,
        after: Self,
        records: Seq<Record>,
        started: Self,
        played: Self,
        stopped: Self,
    ) -> bool {
        &&& self.listens(started, Told::Start)
        &&& started.plays(played, records)
        &&& played.listens(stopped, Told::Stop)
        &&& stopped.sound()
        &&& stopped.finishes(after)
    }

    /// A whole run over a list of records.
    pub closed spec fn runs(&self, after: &Self, records: Seq<Record>) -> bool {
        exists|started: Self, played: Self, stopped: Self| #[trigger]
            self.runs_by(*after, records, started, played, stopped)
    }

    /// Where a run over a list of records comes to a stop though the strategy
    /// stands in no way: at a record that cannot be played through, or
    /// at a final report with a figure that does not fit.
    pub closed spec fn cannot_run(&self, records: Seq<Record>) -> bool {
        ||| exists|started: Self, k: int, between: Self|
            0 <= k < records.len() && #[trigger] self.listens(started, Told::Start)
                && #[trigger] started.plays(between, records.take(k))
                && #[trigger] between.cannot_step(records[k])
        ||| exists|started: Self, played: Self, stopped: Self|
            #[trigger] self.listens(started, Told::Start) && #[trigger] started.plays(
                played,
                records,
            ) && #[trigger] played.listens(stopped, Told::Stop) && stopped.cannot_finish()
    }

    /// Nothing is known before its time: a run takes its records in the order
    /// they became known, its fills come in time order, and every fill bears
    /// the time of a record the run had reached by then.
    pub proof fn no_fill_precedes_its_data(before: &Self, after: &Self, records: Seq<Record>)
        requires
            before.runs(after, records),
            before.booked().len() == 0,
        ensures
            forall|i: int, j: int|
                #![trigger records[i], records[j]]
                0 <= i < j < records.len() ==> records[i].stamps.ts_init.0
                    <= records[j].stamps.ts_init.0,
            forall|i: int, j: int|
                #![trigger after.booked()[i], after.booked()[j]]
                0 <= i < j < after.booked().len() ==> after.booked()[i].ts.0
                    <= after.booked()[j].ts.0,
            forall|i: int|
                0 <= i < after.booked().len() ==> has_instant(
                    records,
                    (#[trigger] after.booked()[i]).ts,
                ),
    {
        let (started, played, stopped) = choose|started: Self, played: Self, stopped: Self|
            #[trigger]
            before.runs_by(*after, records, started, played, stopped);
        Self::running(*before, *after, records, started, played, stopped);
    }

    /// Run a replay to exhaustion.
    ///
    /// What comes out is the run over the merged records in order. The
    /// curve adds up at every point, nothing already booked is lost, and
    /// unless a split restated something on the way, the positions are exactly
    /// those the fills rebuild.
    pub fn run<S: Strategy, R: RecordSource>(
        &mut self,
        replay: &mut Replay<R>,
        strategy: &mut S,
    ) -> (r: Result<RunResult, BacktestError>)
        requires
            old(self).wf(),
            old(replay).wf(),
            old(strategy).ready(),
        ensures
            final(self).wf(),
            final(replay).wf(),
            final(strategy).ready(),
            old(strategy).willing() ==> final(strategy).willing(),
            r is Ok ==> talked(
                *old(strategy),
                *final(strategy),
                old(self).conversation(),
                final(self).conversation(),
            ),
            drained(old(replay).lanes()).1 is Some ==> r is Err,
            Self::left_free(
                old(self).conversation(),
                *final(self),
                *old(strategy),
                *final(strategy),
            ) && r is Err ==> drained(old(replay).lanes()).1 is Some || old(self).cannot_run(records_of(drained(old(replay).lanes()).0)),
            r matches Ok(result) ==> {
                &&& old(self).runs(final(self), records_of(drained(old(replay).lanes()).0))
                &&& final(self).reports(result)
                &&& next_lane(final(replay).lanes()) is None
                &&& result.fills@ == final(self).booked()
                &&& extends(old(self).booked(), result.fills@)
                &&& result.final_cash == final(self).money()
                &&& result.starting_cash == old(self).funds_given()
                &&& curve_adds_up(result.equity@)
                &&& old(self).marks_stand() ==> final(self).marks_stand()
                &&& old(self).audited() && no_split(
                    records_of(drained(old(replay).lanes()).0),
                ) ==> final(self).audited() && folded(result.fills@) == Ok::<
                    Map<KeyView, Position>,
                    BacktestError,
                >(final(self).holdings().held())
                &&& old(self).audited() && no_split(
                    records_of(drained(old(replay).lanes()).0),
                ) ==> adds_up_to(result.fills@, result.realized_pnl, result.commissions)
                &&& money_total(realized_items(final(self).holdings().listed())) == Ok::<
                    Money,
                    BacktestError,
                >(result.realized_pnl)
                &&& money_total(commission_items(final(self).holdings().listed())) == Ok::<
                    Money,
                    BacktestError,
                >(result.commissions)
                &&& records_of(drained(old(replay).lanes()).0).len() > 0
                    ==> result.simulated_through == Some(
                    records_of(drained(old(replay).lanes()).0).last().stamps.ts_init,
                )
            },
    {
        proof {
            talked_not(*strategy, self.talk@);
        }
        let ghost start = *self;
        let ghost lanes = replay.lanes();
        proof {
            self.wf_is_sound();
        }
        let told = self.tell_start(strategy);
        let ghost started = *self;
        proof {
            self.wf_is_sound();
            Self::heeded_advances(start, started);
            Self::advancing_carries(start, started);
        }
        if let Err(e) = told {
            return Err(e);
        }
        let ghost mut records: Seq<Record> = Seq::empty();
        proof {
            assert(records + records_of(drained(lanes).0) =~= records_of(drained(lanes).0));
        }
        loop
            invariant
                self.sound(),
                strategy.ready(),
                old(strategy).willing() ==> strategy.willing(),
                talked(*old(strategy), *strategy, old(self).talk@, self.talk@),
                replay.wf(),
                start.carried(*self),
                started.plays(*self, records),
                no_split(records) ==> self.split == start.split,
                records_of(drained(lanes).0) == records + records_of(drained(replay.lanes()).0),
                drained(lanes).1 == drained(replay.lanes()).1,
                records.len() > 0 ==> self.journal.simulated_through == Some(
                    records.last().stamps.ts_init,
                ),
                lanes == old(replay).lanes(),
                start == *old(self),
                start.listens(started, Told::Start),
                start.wf() == start.sound(),
            ensures
                self.sound(),
                strategy.ready(),
                old(strategy).willing() ==> strategy.willing(),
                talked(*old(strategy), *strategy, old(self).talk@, self.talk@),
                replay.wf(),
                start.carried(*self),
                started.plays(*self, records),
                no_split(records) ==> self.split == start.split,
                records_of(drained(lanes).0) == records,
                drained(lanes).1 is None,
                next_lane(replay.lanes()) is None,
                records.len() > 0 ==> self.journal.simulated_through == Some(
                    records.last().stamps.ts_init,
                ),
            decreases total_left(replay.lanes()),
        {
            let ghost now = replay.lanes();
            let ghost before = *self;
            match replay.next_record() {
                Err(e) => {
                    proof {
                        self.wf_is_sound();
                    }
                    return Err(e);
                },
                Ok(None) => {
                    proof {
                        assert(drained(now).0.len() == 0);
                        assert(records_of(drained(now).0) =~= Seq::<Record>::empty());
                        assert(records + records_of(drained(now).0) =~= records);
                    }
                    break ;
                },
                Ok(Some(record)) => {
                    let ghost rest = drained(replay.lanes());
                    proof {
                        let b = next_lane(now)->Some_0;
                        assert(drained(now).0 == seq![(head_key(now, b), record)] + rest.0);
                        assert(records_of(drained(now).0) =~= seq![record] + records_of(rest.0));
                        assert(records + (seq![record] + records_of(rest.0)) =~= records.push(
                            record,
                        ) + records_of(rest.0));
                    }
                    let ghost heard = *strategy;
                    let done = self.step(&record, strategy);
                    proof {
                        self.wf_is_sound();
                        Self::free_all_along(
                            old(self).talk@,
                            before.talk@,
                            *self,
                            *old(strategy),
                            heard,
                            *strategy,
                        );
                        if old(self).unhindered(*self, *old(strategy), *strategy) && done is Err {
                            let all = records_of(drained(lanes).0);
                            let k = records.len() as int;
                            assert(all.take(k) =~= records);
                            assert(all[k] == record);
                            assert(started.plays(before, all.take(k)));
                            assert(before.cannot_step(all[k]));
                        }
                    }
                    if let Err(e) = done {
                        return Err(e);
                    }
                    proof {
                        talked_again(
                            *old(strategy),
                            heard,
                            *strategy,
                            old(self).talk@,
                            before.talk@,
                            self.talk@,
                        );
                        Self::carried_again(start, before, *self);
                        let longer = records.push(record);
                        assert(longer.drop_last() =~= records);
                        assert(before.steps(*self, longer.last()));
                        if no_split(longer) {
                            assert(!is_split(longer[records.len() as int]));
                            assert forall|i: int| 0 <= i < records.len() implies !is_split(
                                #[trigger] records[i],
                            ) by {
                                assert(longer[i] == records[i]);
                            }
                        }
                        records = longer;
                    }
                },
            }
        }
        let ghost played = *self;
        let ghost heard = *strategy;
        let told = self.tell_stop(strategy);
        let ghost stopped = *self;
        proof {
            self.wf_is_sound();
            Self::heeded_advances(played, stopped);
            Self::advancing_carries(played, stopped);
            Self::carried_again(start, played, stopped);
            Self::free_all_along(
                old(self).talk@,
                played.talk@,
                *self,
                *old(strategy),
                heard,
                *strategy,
            );
        }
        if let Err(e) = told {
            return Err(e);
        }
        proof {
            talked_again(
                *old(strategy),
                heard,
                *strategy,
                old(self).talk@,
                played.talk@,
                self.talk@,
            );
        }
        let r = self.finish();
        proof {
            start.wf_is_sound();
            self.wf_is_sound();
            if r is Err {
                assert(start.listens(started, Told::Start));
                assert(started.plays(played, records));
                assert(played.listens(stopped, Told::Stop));
                assert(stopped.cannot_finish());
            }
            if r is Ok {
                Self::carried_again(start, stopped, *self);
                assert(start.runs_by(*self, records, started, played, stopped));
                let result = r->Ok_0;
                if start.audited() && no_split(records) {
                    let ours = self.ledger.portfolio;
                    assert forall|rebuilt: Portfolio|
                        rebuilt.wf() && folded(result.fills@) == Ok::<
                            Map<KeyView, Position>,
                            BacktestError,
                        >(#[trigger] rebuilt.held()) implies money_total(
                        realized_items(rebuilt.listed()),
                    ) == Ok::<Money, BacktestError>(result.realized_pnl) && money_total(
                        commission_items(rebuilt.listed()),
                    ) == Ok::<Money, BacktestError>(result.commissions) by {
                        ours.rebuilt_from_fills(&rebuilt, result.fills@);
                    }
                }
            }
        }
        r
    }
}

} // verus!
