//! What trading comes to, said of the run as a whole.
//!
//! How the matching of an order, a payout on a delisting, a dividend and an
//! equity point look from outside: by the fills booked, the cash on hand and
//! the orders on file.

use vstd::prelude::*;

use crate::account::{MarginModel, MarginState};
use crate::actions::open_in_instrument;
use crate::book::{
    quantity_sum, walk_levels, walking_is_sound, walking_takes_all_it_may, OrderBook,
};
use crate::calls::CloseOut;
use crate::checks::halted;
use crate::desk::{filter_contains, not_among, on_instrument, InFlightAction};
use crate::engine::{extends, Command, Engine};
use crate::error::BacktestError;
use crate::execution::ExecutionClient;
use crate::instrument::{InstrumentId, OutcomeId};
use crate::kernel::RunResult;
use crate::ledger::quantity_in;
use crate::margin::{a_call_closes_what_it_needs, Doomed};
use crate::market::Prices;
use crate::matching::{fills_level, wanted_of};
use crate::metrics::EquityPoint;
use crate::models::{FeeModel, FillModel, LatencyModel};
use crate::order::{Fill, Order, OrderId, OrderKind, OrderStatus, Trigger};
use crate::position::{commission_items, dividend_items, money_total, realized_items, KeyView};
use crate::request::TwapProgress;
use crate::types::{Money, Price, Qty, UnixNanos};

verus! {

/// A fill that closes what is held of an outcome, at a stated price.
pub open spec fn closes_holding(
    fill: Fill,
    instrument: InstrumentId,
    held: (OutcomeId, Qty),
    price: Price,
    ts: UnixNanos,
) -> bool {
    &&& fill.instrument == instrument
    &&& fill.outcome == held.0
    &&& fill.price == price
    &&& fill.ts == ts
    &&& !fill.is_taker
    &&& held.1.0 > 0 ==> fill.side is Sell && fill.quantity == held.1
    &&& held.1.0 < 0 ==> fill.side is Buy && fill.quantity.0 == -held.1.0
}

impl<F: FeeModel, L: FillModel, T: LatencyModel, M: MarginModel, X: ExecutionClient> Engine<
    F,
    L,
    T,
    M,
    X,
> {
    /// An order matched against a book.
    pub closed spec fn trades_against(
        self,
        after: Self,
        id: OrderId,
        ts: UnixNanos,
        book: OrderBook,
    ) -> bool {
        self.matches_book(after, id, ts, book)
    }

    /// Every fill an order gets from a book is its own, at the instant it is
    /// matched, at a price within its limit and for something, as a taker
    /// unless it was to rest. Together they are what the order records, and
    /// no more than it still wanted.
    pub proof fn a_match_fills_within_the_limit(
        self,
        after: Self,
        id: OrderId,
        ts: UnixNanos,
        book: OrderBook,
        order: Order,
        i: int,
    )
        requires
            self.trades_against(after, id, ts, book),
            self.order_now(id) == Some(order),
            0 <= order.filled.0 <= order.quantity.0,
            order.id == id,
            book.wf(),
            self.booked().len() <= i < after.booked().len(),
        ensures
            ({
                let fill = after.booked()[i];
                &&& fill.order_id == id
                &&& fill.instrument == order.instrument
                &&& fill.outcome == order.outcome
                &&& fill.side == order.side
                &&& fill.quantity.0 > 0
                &&& fill.is_taker == !order.post_only
                &&& fill.ts == ts
                &&& order.kind matches OrderKind::Limit { limit } ==> if order.side is Buy {
                    fill.price.0 <= limit.0
                } else {
                    fill.price.0 >= limit.0
                }
            }),
    {
        self.order_now_is_on_file(id);
        self.opening_figures();
        after.opening_figures();
        let wanted = wanted_of(
            order,
            quantity_in(self.ledger.portfolio.held(), crate::checks::market_of(order)),
        );
        let levels = book.ranked(order.side.opposite());
        let walk = walk_levels(levels, order.side, wanted, order.cap());
        book.ranked_is_best_first(order.side.opposite());
        walking_is_sound(levels, order.side, wanted, order.cap());
        walking_takes_all_it_may(levels, order.side, wanted, order.cap());
        let k = i - self.booked().len();
        assert(fills_level(
            after.ledger.fills@[self.ledger.fills@.len() + k],
            order,
            walk.0[k],
            !order.post_only,
            ts,
        ));
        assert(walk.0[k].1.0 > 0);
    }

    /// An order keeps to how long it was to stand. One to be filled or killed
    /// is filled to the end or not at all, and nothing but an order good
    /// until cancelled is left open once it has been matched. What was booked
    /// before stays booked.
    pub proof fn a_match_keeps_the_time_in_force(
        self,
        after: Self,
        id: OrderId,
        ts: UnixNanos,
        book: OrderBook,
        order: Order,
    )
        requires
            self.trades_against(after, id, ts, book),
            self.order_now(id) == Some(order),
            0 <= order.filled.0 <= order.quantity.0,
            order.id == id,
            book.wf(),
        ensures
            after.order_now(id) matches Some(done) && {
                &&& !(order.time_in_force is GoodTilCancel) ==> done.status is Filled
                    || done.status is Cancelled || done.status is Rejected
                &&& order.time_in_force is FillOrKill && !order.reduce_only ==> done.filled
                    == order.quantity || (done.filled == order.filled && after.booked()
                    == self.booked())
                &&& done.filled.0 >= order.filled.0
                &&& done.filled.0 <= order.quantity.0
                &&& done.filled == order.filled ==> after.booked() == self.booked()
            },
            extends(self.booked(), after.booked()),
    {
        self.order_now_is_on_file(id);
        after.order_now_is_on_file(id);
        self.opening_figures();
        after.opening_figures();
        let wanted = wanted_of(
            order,
            quantity_in(self.ledger.portfolio.held(), crate::checks::market_of(order)),
        );
        let levels = book.ranked(order.side.opposite());
        let walk = walk_levels(levels, order.side, wanted, order.cap());
        book.ranked_is_best_first(order.side.opposite());
        walking_is_sound(levels, order.side, wanted, order.cap());
        fills_sum_to_something(walk.0);
        let (before, now) = (self.ledger.fills@, after.ledger.fills@);
        assert(before.take(before.len() as int) =~= before);
        if extends(before, now) && now.len() == before.len() {
            assert(now =~= before);
        }
    }

    /// How much of a position a margin call closes.
    pub closed spec fn call_closes_of(
        self,
        model: M,
        doomed: Doomed,
        mark: Price,
        now: MarginState,
    ) -> int {
        self.called_size(model, doomed, mark, now)
    }

    /// Whether a margin call closes whole positions rather than parts.
    pub closed spec fn closes_whole(self) -> bool {
        self.setup.liquidation is CloseAll
    }

    /// A margin call closes positions and never turns one round: all of it
    /// where the venue closes everything, and otherwise some part of it, none
    /// where the account already holds what it must.
    pub proof fn a_call_never_turns_a_position_round(
        self,
        model: M,
        doomed: Doomed,
        mark: Price,
        now: MarginState,
        lot: Qty,
    )
        requires
            -0x4000_0000_0000_0000 <= doomed.quantity.0 <= 0x3fff_ffff_ffff_ffff,
            self.lot_of(doomed.instrument@) == lot,
            0 <= lot.0 <= 0x3fff_ffff_ffff_ffff,
        ensures
            ({
                let closing = self.call_closes_of(model, doomed, mark, now);
                &&& self.closes_whole() ==> closing == doomed.quantity.0
                &&& doomed.quantity.0 >= 0 ==> 0 <= closing <= doomed.quantity.0
                &&& doomed.quantity.0 <= 0 ==> doomed.quantity.0 <= closing <= 0
                &&& !self.closes_whole() && now.maintenance.0 <= now.equity.0 ==> closing == 0
            }),
    {
        let full = model.maintenance_of(
            self.setup.instruments@[doomed.instrument@],
            doomed.quantity,
            mark,
        )->Ok_0;
        let need = crate::types::saturated(now.maintenance.0 - now.equity.0);
        if need > 0 && full.0 > 0 {
            a_call_closes_what_it_needs(doomed.quantity, full, need, lot.0 as int);
        }
    }

    /// The lot an instrument trades in.
    pub closed spec fn lot_of(self, instrument: Seq<char>) -> Qty {
        self.setup.instruments@[instrument].lot_size
    }

    /// A dividend paid.
    pub closed spec fn pays_on_holdings(
        self,
        after: Self,
        instrument: InstrumentId,
        per_share: Money,
    ) -> bool {
        self.pays_dividend(after, instrument, per_share)
    }

    /// A dividend moves cash by what the positions in the instrument are owed
    /// together, and moves nothing else that is held.
    pub proof fn a_dividend_moves_what_is_owed(
        self,
        after: Self,
        instrument: InstrumentId,
        per_share: Money,
    )
        requires
            self.pays_on_holdings(after, instrument, per_share),
        ensures
            money_total(
                dividend_items(self.holdings().listed(), instrument@, per_share),
            ) matches Ok(owed) && after.money().0 - self.money().0 == owed.0,
            after.holdings() == self.holdings(),
            after.booked() == self.booked(),
    {
        self.opening_figures();
        after.opening_figures();
    }

    /// An instrument taken off the venue.
    pub closed spec fn is_delisted(
        self,
        after: Self,
        instrument: InstrumentId,
        price: Price,
        ts: UnixNanos,
    ) -> bool {
        self.delists(after, instrument, price, ts)
    }

    /// A delisting closes every open position in the instrument, each whole
    /// and at the stated price: a long is sold and a short bought back, and
    /// nothing else is filled.
    pub proof fn a_delisting_closes_everything_at_its_price(
        self,
        after: Self,
        instrument: InstrumentId,
        price: Price,
        ts: UnixNanos,
    )
        requires
            self.is_delisted(after, instrument, price, ts),
        ensures
            ({
                let held = open_in_instrument(self.holdings().listed(), instrument@);
                let n = self.booked().len() as int;
                &&& after.booked().len() == n + held.len()
                &&& extends(self.booked(), after.booked())
                &&& forall|i: int|
                    0 <= i < held.len() && held[i].1.0 != i64::MIN ==> closes_holding(
                        #[trigger] after.booked()[n + i],
                        instrument,
                        held[i],
                        price,
                        ts,
                    )
            }),
    {
        self.opening_figures();
        after.opening_figures();
        let held = open_in_instrument(self.ledger.portfolio.listed(), instrument@);
        let paid = choose|paid: Self| #[trigger]
            paid.takes_off(after, instrument) && self.pays_out_all(
                paid,
                instrument,
                held,
                price,
                ts,
            );
        self.paying_out_closes_each(paid, instrument, held, price, ts);
    }

    proof fn paying_out_closes_each(
        self,
        after: Self,
        instrument: InstrumentId,
        held: Seq<(OutcomeId, Qty)>,
        price: Price,
        ts: UnixNanos,
    )
        requires
            self.pays_out_all(after, instrument, held, price, ts),
        ensures
            ({
                let n = self.ledger.fills@.len() as int;
                &&& after.ledger.fills@.len() == n + held.len()
                &&& extends(self.ledger.fills@, after.ledger.fills@)
                &&& forall|i: int|
                    0 <= i < held.len() && held[i].1.0 != i64::MIN ==> closes_holding(
                        #[trigger] after.ledger.fills@[n + i],
                        instrument,
                        held[i],
                        price,
                        ts,
                    )
            }),
        decreases held.len(),
    {
        let n = self.ledger.fills@.len() as int;
        if held.len() == 0 {
            assert(self.ledger.fills@.take(n) =~= self.ledger.fills@);
        } else {
            let head = held.drop_last();
            let between = choose|between: Self|
                self.pays_out_all(between, instrument, head, price, ts)
                    && #[trigger] between.pays_out(after, instrument, held.last(), price, ts);
            self.paying_out_closes_each(between, instrument, head, price, ts);
            let (filed, order) = choose|filed: Self, order: Order| #[trigger]
                between.cashes_out(after, filed, order, instrument, held.last(), price, ts);
            let (a, b, c) = (self.ledger.fills@, between.ledger.fills@, after.ledger.fills@);
            assert(filed.ledger == between.ledger);
            assert(c.len() == b.len() + 1 && c.drop_last() =~= b);
            assert(c.take(n) =~= b.take(n));
            assert forall|i: int| 0 <= i < held.len() && held[i].1.0 != i64::MIN implies
                closes_holding(#[trigger] c[n + i], instrument, held[i], price, ts) by {
                if i < head.len() {
                    assert(head[i] == held[i]);
                    assert(c[n + i] == b[n + i]);
                } else {
                    assert(c[n + i] == c.last());
                }
            }
        }
    }

    /// The equity curve so far.
    pub closed spec fn curve(self) -> Seq<EquityPoint> {
        self.journal.equity@
    }

    /// When the next equity point is due.
    pub closed spec fn next_point(self) -> Option<i64> {
        self.journal.next_equity_sample
    }

    /// How far apart equity points are.
    pub closed spec fn point_interval(self) -> i64 {
        self.setup.equity_interval
    }

    /// The equity curve looked after at an instant.
    pub closed spec fn keeps_curve(self, after: Self, ts: UnixNanos) -> bool {
        self.samples(after, ts)
    }

    /// An equity point is taken when one is due and not before, one at a time
    /// and an interval apart. It adds up: equity is the cash on hand and what
    /// the positions are worth. Taking one moves neither cash nor positions.
    pub proof fn equity_points_are_an_interval_apart(self, after: Self, ts: UnixNanos)
        requires
            self.keeps_curve(after, ts),
        ensures
            self.next_point() matches Some(next) && ts.0 < next ==> after == self,
            self.next_point() is None || self.next_point()->Some_0 <= ts.0 ==> {
                let point = after.curve().last();
                let due = ts.0 + self.point_interval();
                &&& after.curve().len() == self.curve().len() + 1
                &&& after.curve().drop_last() == self.curve()
                &&& point.ts == ts
                &&& point.cash == self.money()
                &&& point.equity.0 == point.cash.0 + point.position_value.0
                &&& i64::MIN <= due <= i64::MAX ==> after.next_point() == Some(due as i64)
            },
            after.money() == self.money(),
            after.holdings() == self.holdings(),
            after.booked() == self.booked(),
    {
        self.opening_figures();
        after.opening_figures();
        if self.sample_due(ts) {
            let pushed = choose|pushed: Self| #[trigger]
                self.pushes_equity(pushed, ts) && pushed.rearms(after, ts);
            assert(pushed.journal.equity@.drop_last() =~= self.journal.equity@);
        }
    }
}

impl<F: FeeModel, L: FillModel, T: LatencyModel, M: MarginModel, X: ExecutionClient> Engine<
    F,
    L,
    T,
    M,
    X,
> {
    /// How much stands ahead of an order in its queue, where that is tracked.
    pub closed spec fn place_in_queue(self, id: OrderId) -> Option<i64> {
        if self.desk.queue_ahead@.dom().contains(id.0) {
            Some(self.desk.queue_ahead@[id.0])
        } else {
            None
        }
    }

    /// The book of a market, where it has one.
    pub closed spec fn book_now(self, market: KeyView) -> Option<OrderBook> {
        self.market.book_in(market)
    }

    /// Whether places in the queue are tracked.
    pub closed spec fn tracks_places(self) -> bool {
        self.fill_model.tracks_queue()
    }

    /// Cancelling an order ends it where it was still open, and touches no
    /// other order, no fill and no cash. One that is over stays as it ended.
    pub proof fn cancelling_ends_one_order(self, after: Self, id: OrderId, other: OrderId)
        requires
            self.obeys(after, Command::Cancel(id)),
        ensures
            self.order_now(id) matches Some(order) ==> {
                let over = order.status is Filled || order.status is Cancelled
                    || order.status is Rejected;
                &&& over ==> after == self
                &&& !over ==> after.order_now(id) == Some(
                    Order { status: OrderStatus::Cancelled, ..order },
                ) && after.place_in_queue(id) is None
            },
            other != id ==> after.order_now(other) == self.order_now(other)
                && after.place_in_queue(other) == self.place_in_queue(other),
            after.booked() == self.booked(),
            after.money() == self.money(),
            after.holdings() == self.holdings(),
    {
        self.obeying_is_performing(after, Command::Cancel(id));
        self.order_now_is_on_file(id);
        after.order_now_is_on_file(id);
        self.order_now_is_on_file(other);
        after.order_now_is_on_file(other);
        self.opening_figures();
        after.opening_figures();
    }

    /// An order that is amended to ask for less at its own price keeps its
    /// place in the queue. One that asks for more, or at another price, joins
    /// again behind what is displayed at its price then.
    pub proof fn an_amended_order_keeps_or_loses_its_place(
        self,
        after: Self,
        id: OrderId,
        quantity: Option<Qty>,
        limit: Option<Price>,
        order: Order,
        price: Price,
    )
        requires
            self.obeys(after, Command::Amend { id, quantity, limit }),
            self.order_now(id) == Some(order),
            order.id == id,
            !(order.status is Filled || order.status is Cancelled || order.status is Rejected),
            order.kind == (OrderKind::Limit { limit: price }),
        ensures
            ({
                let at = match limit {
                    Some(moved) => moved,
                    None => price,
                };
                let more = quantity matches Some(q) && q.0 > order.quantity.0;
                &&& at == price && !more ==> after.place_in_queue(id) == self.place_in_queue(id)
                &&& (at != price || more) && self.tracks_places() ==> (match self.book_now(
                    (order.instrument@, order.outcome.0),
                ) {
                    Some(book) => after.place_in_queue(id) == Some(
                        if book.side(order.side).dom().contains(at.0) {
                            book.side(order.side)[at.0].0
                        } else {
                            0
                        },
                    ),
                    None => after.place_in_queue(id) == Some(0i64),
                })
                &&& (at != price || more) && !self.tracks_places() ==> after.place_in_queue(
                    id,
                ) is None
            }),
            after.booked() == self.booked(),
            after.money() == self.money(),
    {
        self.obeying_is_performing(after, Command::Amend { id, quantity, limit });
        self.order_now_is_on_file(id);
        self.opening_figures();
        after.opening_figures();
    }

    /// What positions are valued at.
    pub closed spec fn marks_now(self) -> Prices {
        self.market.marks@
    }

    /// Why an instrument does not trade at an instant, if it does not.
    pub closed spec fn halt_now(self, instrument: Seq<char>, ts: UnixNanos) -> Option<Seq<char>> {
        halted(self.setup.instruments@, self.board.delisted@, instrument, ts)
    }

    /// A stop whose mark has not come is held when it arrives: it waits, and
    /// nothing of it is filled. An order whose instrument has stopped trading
    /// is turned away.
    pub proof fn a_stop_is_held_until_its_mark(
        self,
        after: Self,
        id: OrderId,
        ts: UnixNanos,
        order: Order,
        trigger: Trigger,
    )
        requires
            self.deals_with_arrival(after, InFlightAction::Order(id), ts),
            self.order_now(id) == Some(order),
            order.id == id,
            order.status is InFlight,
            order.trigger == Some(trigger),
            !order.post_only,
        ensures
            ({
                let key = (order.instrument@, order.outcome.0);
                let mark = self.marks_now()[key].0;
                let come = self.marks_now().dom().contains(key) && if trigger.direction is Above {
                    mark >= trigger.price.0
                } else {
                    mark <= trigger.price.0
                };
                let stopped = self.halt_now(order.instrument@, ts) is Some;
                &&& stopped ==> (after.order_now(id) matches Some(done) && done.status is Rejected
                    && done.filled == order.filled)
                &&& !stopped && !come ==> after.order_now(id) == Some(
                    Order {
                        status: OrderStatus::Untriggered,
                        accepted_at: Some(ts),
                        ..order
                    },
                )
                &&& stopped || !come ==> after.booked() == self.booked() && after.money()
                    == self.money()
            }),
    {
        Self::arriving_is_receiving(self, after, InFlightAction::Order(id), ts);
        self.order_now_is_on_file(id);
        after.order_now_is_on_file(id);
        self.opening_figures();
        after.opening_figures();
    }

    /// One expiry dealt with.
    pub closed spec fn expires_one(self, after: Self, instrument: InstrumentId) -> bool {
        &&& self.board.expiries@[self.board.next_expiry as int].1 == instrument
        &&& !self.board.expired@.dom().contains(instrument@)
        &&& self.expires_next(after)
    }

    /// Whether an order rests on the book.
    pub closed spec fn is_resting(self, id: OrderId) -> bool {
        self.desk.resting@.contains(id)
    }

    /// An expiry calls off what rests in its instrument and is still open, and
    /// no other order. It fills nothing and moves no cash.
    pub proof fn an_expiry_calls_off_its_own_orders(
        self,
        after: Self,
        instrument: InstrumentId,
        id: OrderId,
        order: Order,
    )
        requires
            self.expires_one(after, instrument),
            self.order_now(id) == Some(order),
        ensures
            ({
                let over = order.status is Filled || order.status is Cancelled
                    || order.status is Rejected;
                let own = self.is_resting(id) && order.instrument@ == instrument@;
                &&& own && !over ==> (after.order_now(id) matches Some(done) && done.status
                    is Cancelled && done.filled == order.filled)
                &&& !own || over ==> after.order_now(id) == Some(order)
                &&& own ==> !after.is_resting(id)
                &&& !own ==> after.is_resting(id) == self.is_resting(id)
            }),
            after.booked() == self.booked(),
            after.money() == self.money(),
            after.holdings() == self.holdings(),
    {
        self.order_now_is_on_file(id);
        after.order_now_is_on_file(id);
        self.opening_figures();
        after.opening_figures();
        let resting = self.desk.resting@;
        let keep = on_instrument(self.desk.orders@, instrument@);
        let ids = resting.filter(keep);
        filter_contains(resting, keep);
        filter_contains(resting, not_among(ids));
        assert(ids.contains(id) <==> resting.contains(id) && keep(id));
        assert(resting.filter(not_among(ids)).contains(id) <==> resting.contains(id) && not_among(
            ids,
        )(id));
    }

    /// The venue's own order for a position a margin call closes.
    pub closed spec fn orders_forced_close(
        self,
        filed: Self,
        order: Order,
        close: CloseOut,
        tag: String,
        ts: UnixNanos,
    ) -> bool {
        self.orders_close(filed, order, close, tag, ts)
    }

    /// A forced close is an order the other way, for what is to be closed, at
    /// the market and at once.
    pub proof fn a_forced_close_goes_the_other_way(
        self,
        filed: Self,
        order: Order,
        close: CloseOut,
        tag: String,
        ts: UnixNanos,
    )
        requires
            self.orders_forced_close(filed, order, close, tag, ts),
            close.quantity.0 != i64::MIN,
        ensures
            order.instrument == close.instrument,
            order.outcome == close.outcome,
            close.quantity.0 > 0 ==> order.side is Sell && order.quantity == close.quantity,
            close.quantity.0 < 0 ==> order.side is Buy && order.quantity.0 == -close.quantity.0,
            order.kind is Market,
            order.time_in_force is ImmediateOrCancel,
            order.submitted_at == ts,
            filed.order_now(order.id) == Some(order),
            filed.booked() == self.booked(),
    {
        filed.order_now_is_on_file(order.id);
        self.opening_figures();
        filed.opening_figures();
    }

    /// One slice of a schedule on file.
    pub closed spec fn files_slice(
        self,
        filed: Self,
        order: Order,
        twap: TwapProgress,
        slice: Qty,
        ts: UnixNanos,
    ) -> bool {
        self.sends(filed, order, twap, slice, ts)
    }

    /// A slice is an order for its part of the whole, on the side asked for,
    /// at the market and at once.
    pub proof fn a_slice_trades_its_part_at_once(
        self,
        filed: Self,
        order: Order,
        twap: TwapProgress,
        slice: Qty,
        ts: UnixNanos,
    )
        requires
            self.files_slice(filed, order, twap, slice, ts),
        ensures
            order.instrument == twap.request.instrument,
            order.outcome == twap.request.outcome,
            order.side == twap.request.side,
            order.quantity == slice,
            order.filled.0 == 0,
            order.reduce_only == twap.request.reduce_only,
            order.kind is Market,
            order.time_in_force is ImmediateOrCancel,
            twap.request.tag is Some ==> order.tag == twap.request.tag,
            filed.order_now(order.id) == Some(order),
    {
        filed.order_now_is_on_file(order.id);
    }

    /// A print worked through one order it reaches.
    pub closed spec fn print_works_order(
        self,
        noted: Self,
        filled: Self,
        after: Self,
        entry: (Price, OrderId),
        before: int,
        left: int,
        ts: UnixNanos,
    ) -> bool {
        self.works_one(noted, filled, after, entry, before, left, ts)
    }

    /// A print gives an order what is left of it once the queue ahead is
    /// served, at the order's own price and as a maker, and never more than
    /// the order wants. What it gives, what it serves ahead and what it has
    /// left are together what it came with.
    pub proof fn a_print_fills_an_order_at_its_own_price(
        self,
        noted: Self,
        filled: Self,
        after: Self,
        entry: (Price, OrderId),
        before: int,
        left: int,
        ts: UnixNanos,
        order: Order,
    )
        requires
            self.print_works_order(noted, filled, after, entry, before, left, ts),
            before > 0,
            before <= i64::MAX,
            self.order_now(entry.1) == Some(order),
            order.id == entry.1,
            0 <= order.filled.0 <= order.quantity.0,
            self.place_in_queue(entry.1) matches Some(place) && place >= 0,
        ensures
            ({
                let ahead = self.place_in_queue(entry.1)->Some_0;
                let wanted = order.quantity.0 - order.filled.0;
                let reach = before - ahead;
                let given = if reach <= 0 {
                    0
                } else if reach <= wanted {
                    reach
                } else {
                    wanted
                };
                &&& given == 0 ==> after.booked() == self.booked()
                &&& given > 0 ==> {
                    let fill = after.booked().last();
                    &&& after.booked().len() == self.booked().len() + 1
                    &&& after.booked().drop_last() == self.booked()
                    &&& fill.order_id == entry.1
                    &&& fill.price == entry.0
                    &&& fill.quantity.0 == given
                    &&& fill.side == order.side
                    &&& !fill.is_taker
                    &&& fill.ts == ts
                }
                &&& left == if reach <= 0 {
                    0
                } else {
                    reach - given
                }
            }),
    {
        self.order_now_is_on_file(entry.1);
        self.opening_figures();
        after.opening_figures();
        let share = self.share_at(entry.1, before);
        if share.fill > 0 {
            let (a, b) = (self.ledger.fills@, filled.ledger.fills@);
            assert(b.drop_last() =~= a);
        }
    }

    /// A report says what the account holds when it is made: its cash, what it
    /// started with, every fill, the equity curve, and profit and commissions
    /// over everything held.
    pub proof fn a_report_says_what_the_account_holds(&self, result: RunResult)
        requires
            self.reports(result),
        ensures
            result.final_cash == self.money(),
            result.starting_cash == self.funds_given(),
            result.fills@ == self.booked(),
            result.equity@ == self.curve(),
            result.marks@ == self.marks_now(),
            money_total(realized_items(self.holdings().listed())) == Ok::<Money, BacktestError>(
                result.realized_pnl,
            ),
            money_total(commission_items(self.holdings().listed())) == Ok::<Money, BacktestError>(
                result.commissions,
            ),
    {
        self.opening_figures();
        self.reporting_is_saying(result);
    }
}

proof fn fills_sum_to_something(fills: Seq<(Price, Qty)>)
    requires
        forall|i: int| 0 <= i < fills.len() ==> (#[trigger] fills[i]).1.0 > 0,
    ensures
        quantity_sum(fills) >= fills.len(),
    decreases fills.len(),
{
    if fills.len() > 0 {
        let head = fills.drop_last();
        assert(fills[fills.len() - 1].1.0 > 0);
        assert forall|i: int| 0 <= i < head.len() implies (#[trigger] head[i]).1.0 > 0 by {
            assert(head[i] == fills[i]);
        }
        fills_sum_to_something(head);
    }
}

} // verus!
