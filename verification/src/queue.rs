//! What a record does to resting orders: the queue a print works through,
//! and the orders the top of the book now reaches.

use vstd::prelude::*;

use crate::account::MarginModel;
use crate::book::OrderBook;
use crate::checks::{market_of, Orders};
use crate::desk::{finished, is_open, open_in, still_open, Desk};
use crate::engine::{extends, same_order, Engine};
use crate::error::BacktestError;
use crate::event::{MarketEvent, Record};
use crate::execution::ExecutionClient;
use crate::instrument::InstrumentId;
use crate::market::key_for;
use crate::matching::{passive_fill, queue_share, share_of_print, volume, QueueShare};
use crate::models::{FeeModel, FillModel, LatencyModel};
use crate::order::{Fill, Order, OrderId};
use crate::ordered::SortedMap;
use crate::position::{KeyView, PositionKey};
use crate::resting::{ascending, reaches, served_before, RestingEntry};
use crate::strategy::{talked, talked_again, talked_not, Strategy};
use crate::types::{Price, Qty, Side, UnixNanos};

verus! {

/// Fills a print gave to resting orders: each at its own limit, all of them
/// together no more than the print.
pub open spec fn print_fills(
    before: Seq<Fill>,
    after: Seq<Fill>,
    passive: Side,
    market: KeyView,
    at: Price,
    size: int,
    ts: UnixNanos,
) -> bool {
    &&& extends(before, after)
    &&& forall|i: int|
        before.len() <= i < after.len() ==> passive_fill(
            #[trigger] after[i],
            passive,
            market,
            at,
            ts,
        )
    &&& volume(after.skip(before.len() as int)) <= size
}

/// What a print can hand out.
pub open spec fn print_size(size: Qty) -> int {
    if size.0 > 0 {
        size.0 as int
    } else {
        0
    }
}

/// The best price displayed on a side.
pub open spec fn best_price(book: OrderBook, side: Side) -> Option<Price> {
    match book.best(side) {
        Some((price, _)) => Some(price),
        None => None,
    }
}

/// A list with one more at its end, seen from a point on.
proof fn volume_grows(before: Seq<Fill>, after: Seq<Fill>, base: int, fill: Fill)
    requires
        0 <= base <= before.len(),
        after == before.push(fill),
    ensures
        volume(after.skip(base)) == volume(before.skip(base)) + fill.quantity.0,
{
    assert(after.skip(base).drop_last() =~= before.skip(base));
    assert(after.skip(base).last() == fill);
}

/// Open orders in one instrument.
pub open spec fn open_for(orders: Orders, instrument: Seq<char>) -> spec_fn(OrderId) -> bool {
    |id: OrderId| open_in(orders, id.0) && orders[id.0].instrument@ == instrument
}

/// The open orders of a list that are in one instrument.
fn keep_instrument(
    ids: &Vec<OrderId>,
    orders: &SortedMap<u64, Order>,
    instrument: &InstrumentId,
) -> (out: Vec<OrderId>)
    requires
        orders.wf(),
    ensures
        out@ == ids@.filter(open_for(orders@, instrument@)),
{
    let mut out: Vec<OrderId> = Vec::new();
    let mut i: usize = 0;
    proof {
        reveal(Seq::filter);
    }
    assert(out@ =~= ids@.take(0).filter(open_for(orders@, instrument@)));
    while i < ids.len()
        invariant
            i <= ids@.len(),
            orders.wf(),
            out@ == ids@.take(i as int).filter(open_for(orders@, instrument@)),
        decreases ids@.len() - i,
    {
        proof {
            reveal(Seq::filter);
            assert(ids@.take(i + 1).drop_last() =~= ids@.take(i as int));
            assert(ids@.take(i + 1).last() == ids@[i as int]);
        }
        let id = ids[i];
        if let Some(order) = orders.get(&id.0) {
            if order.is_open() && order.instrument == *instrument {
                out.push(id);
            }
        }
        i += 1;
    }
    assert(ids@.take(i as int) =~= ids@);
    out
}

impl<F: FeeModel, L: FillModel, T: LatencyModel, M: MarginModel, X: ExecutionClient> Engine<
    F,
    L,
    T,
    M,
    X,
> {
    /// One side of the passive queue worked through by a print.
    pub(crate) open spec fn works_side(
        self,
        after: Self,
        record: Record,
        price: Price,
        size: Qty,
        passive: Side,
    ) -> bool {
        let market: KeyView = (record.instrument@, record.outcome.0);
        let ts = record.stamps.ts_init;
        &&& print_fills(
            self.ledger.fills@,
            after.ledger.fills@,
            passive,
            market,
            price,
            print_size(size),
            ts,
        )
        &&& exists|eligible: Seq<(Price, OrderId)>, worked: Self, left: int| #[trigger]
            self.works_print(after, eligible, worked, left, passive, market, price, size, ts)
    }

    /// A print worked through the passive queue: the side the aggressor
    /// hit, or both in turn where nobody says which side that was and the
    /// fill model counts such prints.
    pub(crate) open spec fn works_trade(
        self,
        after: Self,
        record: Record,
        price: Price,
        size: Qty,
        aggressor: Option<Side>,
    ) -> bool {
        if !self.fill_model.tracks_queue() {
            after == self
        } else {
            match aggressor {
                Some(side) => self.works_side(after, record, price, size, side.opposite()),
                None => if self.fill_model.counts_unknown_aggressor() {
                    exists|between: Self| #[trigger]
                        self.works_side(between, record, price, size, Side::Buy) && between.sound()
                            && between.works_side(after, record, price, size, Side::Sell)
                } else {
                    after == self
                },
            }
        }
    }

    /// Working one side comes to a fill: a print worked through some of the
    /// orders it reaches, with something left for the next.
    pub(crate) open spec fn side_fills(
        self,
        record: Record,
        price: Price,
        size: Qty,
        passive: Side,
        quiet: bool,
    ) -> bool {
        let market: KeyView = (record.instrument@, record.outcome.0);
        exists|eligible: Seq<(Price, OrderId)>, k: int, between: Self, left: int|
            0 <= k < eligible.len() && self.reached(eligible, passive, market, price)
                && #[trigger] self.works_queue(
                between,
                eligible.take(k),
                size.0 as int,
                left,
                record.stamps.ts_init,
            ) && #[trigger] between.print_stops(
                eligible[k],
                left,
                record.stamps.ts_init,
                quiet,
            )
    }

    /// Working a print comes to a fill, on the side it hits or on either.
    pub(crate) open spec fn trade_fills(
        self,
        record: Record,
        price: Price,
        size: Qty,
        aggressor: Option<Side>,
        quiet: bool,
    ) -> bool {
        &&& self.fill_model.tracks_queue()
        &&& match aggressor {
            Some(side) => self.side_fills(record, price, size, side.opposite(), quiet),
            None => self.fill_model.counts_unknown_aggressor() && (self.side_fills(
                record,
                price,
                size,
                Side::Buy,
                quiet,
            ) || exists|between: Self| #[trigger]
                self.works_side(between, record, price, size, Side::Buy) && between.side_fills(
                    record,
                    price,
                    size,
                    Side::Sell,
                    quiet,
                )),
        }
    }

    /// Whether a print of some size fills an order and, where the strategy
    /// stands in no way,
    /// the order cannot be filled.
    pub(crate) open spec fn print_stops(
        self,
        entry: (Price, OrderId),
        size: int,
        ts: UnixNanos,
        quiet: bool,
    ) -> bool {
        let fill = self.share_at(entry.1, size).fill;
        &&& fill > 0
        &&& quiet ==> self.cannot_execute(entry.1, entry.0, Qty(fill as i64), false, ts)
    }

    /// What a print of some size comes to for an order.
    pub(crate) open spec fn share_at(self, id: OrderId, size: int) -> QueueShare {
        let order = self.desk.orders@[id.0];
        let ahead = if self.desk.queue_ahead@.dom().contains(id.0) {
            self.desk.queue_ahead@[id.0] as int
        } else {
            0
        };
        if size > 0 {
            queue_share(size, ahead, order.quantity.0 - order.filled.0)
        } else {
            QueueShare { ahead, remaining: size, fill: 0 }
        }
    }

    /// What fails though the strategy stands in no way may fail where it does.
    proof fn fills_all_the_same(self, record: Record, price: Price, size: Qty, passive: Side)
        requires
            self.side_fills(record, price, size, passive, true),
        ensures
            self.side_fills(record, price, size, passive, false),
    {
        let market: KeyView = (record.instrument@, record.outcome.0);
        let ts = record.stamps.ts_init;
        let (eligible, k, between, left) = choose|
            eligible: Seq<(Price, OrderId)>,
            k: int,
            between: Self,
            left: int,
        |
            0 <= k < eligible.len() && self.reached(eligible, passive, market, price)
                && #[trigger] self.works_queue(between, eligible.take(k), size.0 as int, left, ts)
                && #[trigger] between.print_stops(eligible[k], left, ts, true);
        assert(between.print_stops(eligible[k], left, ts, false));
    }

    /// Let a print consume the queue, and fill what it reaches.
    ///
    /// A buy aggressor works through resting sells, a sell aggressor through
    /// resting buys. Without a side the print is ambiguous: only the
    /// permissive reading lets it work both queues.
    pub(crate) fn consume_queue<S: Strategy>(
        &mut self,
        record: &Record,
        price: Price,
        size: Qty,
        aggressor: Option<Side>,
        strategy: &mut S,
    ) -> (r: Result<(), BacktestError>)
        requires
            old(self).sound(),
            old(strategy).ready(),
        ensures
            final(self).sound(),
            final(strategy).ready(),
            old(strategy).willing() ==> final(strategy).willing(),
            r is Ok ==> talked(*old(strategy), *final(strategy), old(self).talk@, final(self).talk@),
            r is Ok ==> old(self).advanced(*final(self)),
            r is Ok ==> old(self).works_trade(*final(self), *record, price, size, aggressor),
            r is Err ==> old(self).trade_fills(
                *record,
                price,
                size,
                aggressor,
                old(self).unhindered(*final(self), *old(strategy), *final(strategy)),
            ),
    {
        proof {
            talked_not(*strategy, self.talk@);
        }
        proof {
            old(self).advances_itself();
        }
        if !self.fill_model.uses_queue_position() {
            return Ok(());
        }
        match aggressor {
            Some(side) => self.consume_queue_side(record, price, size, side.opposite(), strategy),
            None => {
                if !self.fill_model.fills_on_unknown_aggressor() {
                    return Ok(());
                }
                self.consume_queue_side(record, price, size, Side::Buy, strategy)?;
                let ghost between = *self;
                let ghost asked = *strategy;
                let r = self.consume_queue_side(record, price, size, Side::Sell, strategy);
                proof {
                    Self::free_all_along(
                        old(self).talk@,
                        between.talk@,
                        *self,
                        *old(strategy),
                        asked,
                        *strategy,
                    );
                    if r is Err && between.unhindered(*self, asked, *strategy) {
                        between.fills_all_the_same(*record, price, size, Side::Sell);
                    }
                    assert(old(self).works_side(between, *record, price, size, Side::Buy));
                    if r is Ok {
                        Self::advanced_again(*old(self), between, *self);
                        talked_again(
                            *old(strategy),
                            asked,
                            *strategy,
                            old(self).talk@,
                            between.talk@,
                            self.talk@,
                        );
                    }
                }
                r
            },
        }
    }

    /// Whether a list holds the resting orders a print reaches, in the order
    /// it reaches them.
    pub(crate) open spec fn reached(
        self,
        eligible: Seq<(Price, OrderId)>,
        passive: Side,
        market: KeyView,
        at: Price,
    ) -> bool {
        &&& forall|i: int|
            0 <= i < eligible.len() ==> reaches(
                passive,
                (#[trigger] eligible[i]).0.0 as int,
                at.0 as int,
            ) && self.desk.resting_index.rests(passive, market, eligible[i].0.0, eligible[i].1.0)
        &&& forall|price: i64, id: u64| #[trigger]
            self.desk.resting_index.rests(passive, market, price, id) && reaches(
                passive,
                price as int,
                at.0 as int,
            ) ==> eligible.contains((Price(price), OrderId(id)))
        &&& forall|i: int, j: int|
            #![trigger eligible[i], eligible[j]]
            0 <= i < j < eligible.len() ==> served_before(passive, eligible[i], eligible[j])
    }

    /// What a print does to one order it reaches: it works through the size
    /// ahead of the order, and fills the order at its own limit with what is
    /// left.
    pub(crate) open spec fn works_one(
        self,
        noted: Self,
        filled: Self,
        after: Self,
        entry: (Price, OrderId),
        before: int,
        left: int,
        ts: UnixNanos,
    ) -> bool {
        let id = entry.1;
        let share = self.share_at(id, before);
        if before <= 0 {
            after == self && left == before
        } else {
            &&& self.desk.orders@.dom().contains(id.0)
            &&& left == share.remaining
            &&& noted == (Engine { desk: noted.desk, ..self })
            &&& noted.desk == (Desk { queue_ahead: noted.desk.queue_ahead, ..self.desk })
            &&& noted.desk.queue_ahead@ == self.desk.queue_ahead@.insert(
                id.0,
                share.ahead as i64,
            )
            &&& if share.fill > 0 {
                noted.executes(filled, id, entry.0, Qty(share.fill as i64), false, ts)
            } else {
                filled == noted
            }
            &&& if share.fill == 0 && left <= 0 {
                after == filled
            } else {
                &&& after == (Engine { desk: after.desk, ..filled })
                &&& after.desk == (Desk { queue_ahead: after.desk.queue_ahead, ..filled.desk })
                &&& after.desk.queue_ahead@ == (if open_in(filled.desk.orders@, id.0) {
                    filled.desk.queue_ahead@
                } else {
                    filled.desk.queue_ahead@.remove(id.0)
                })
            }
        }
    }

    /// A print worked through orders one after another.
    pub(crate) open spec fn works_queue(
        self,
        after: Self,
        eligible: Seq<(Price, OrderId)>,
        size: int,
        left: int,
        ts: UnixNanos,
    ) -> bool
        decreases eligible.len(),
    {
        if eligible.len() == 0 {
            after == self && left == size
        } else {
            exists|between: Self, noted: Self, filled: Self, before: int|
                self.works_queue(between, eligible.drop_last(), size, before, ts)
                    && #[trigger] between.works_one(
                    noted,
                    filled,
                    after,
                    eligible.last(),
                    before,
                    left,
                    ts,
                )
        }
    }

    /// A print worked through every order it reaches, and the finished ones
    /// taken off the lists.
    pub(crate) open spec fn works_print(
        self,
        after: Self,
        eligible: Seq<(Price, OrderId)>,
        worked: Self,
        left: int,
        passive: Side,
        market: KeyView,
        at: Price,
        size: Qty,
        ts: UnixNanos,
    ) -> bool {
        &&& self.reached(eligible, passive, market, at)
        &&& self.works_queue(worked, eligible, size.0 as int, left, ts)
        &&& after == (Engine { desk: after.desk, ..worked })
        &&& after.desk == (Desk {
            resting: after.desk.resting,
            resting_index: after.desk.resting_index,
            queue_ahead: after.desk.queue_ahead,
            ..worked.desk
        })
        &&& after.desk.resting@ == still_open(worked.desk.resting@, worked.desk.orders@)
        &&& after.desk.queue_ahead@ == worked.desk.queue_ahead@.remove_keys(
            finished(worked.desk.resting@, worked.desk.orders@),
        )
    }

    /// A print that is used up touches nothing more.
    proof fn idle_extends(
        a: Self,
        b: Self,
        eligible: Seq<(Price, OrderId)>,
        n: int,
        size: int,
        left: int,
        ts: UnixNanos,
    )
        requires
            0 <= n <= eligible.len(),
            a.works_queue(b, eligible.take(n), size, left, ts),
            left <= 0 || n == eligible.len(),
        ensures
            a.works_queue(b, eligible, size, left, ts),
        decreases eligible.len() - n,
    {
        if n < eligible.len() {
            let longer = eligible.take(n + 1);
            assert(longer.drop_last() =~= eligible.take(n));
            assert(b.works_one(b, b, b, longer.last(), left, left, ts));
            assert(a.works_queue(b, longer, size, left, ts));
            Self::idle_extends(a, b, eligible, n + 1, size, left, ts);
        } else {
            assert(eligible.take(n) =~= eligible);
        }
    }

    /// Let a print work through one side's queue: best price first and,
    /// within a price, in the order orders were submitted.
    #[verifier::rlimit(60)]
    fn consume_queue_side<S: Strategy>(
        &mut self,
        record: &Record,
        price: Price,
        size: Qty,
        passive: Side,
        strategy: &mut S,
    ) -> (r: Result<(), BacktestError>)
        requires
            old(self).sound(),
            old(strategy).ready(),
        ensures
            final(self).sound(),
            final(strategy).ready(),
            old(strategy).willing() ==> final(strategy).willing(),
            r is Ok ==> talked(*old(strategy), *final(strategy), old(self).talk@, final(self).talk@),
            r is Ok ==> old(self).advanced(*final(self)),
            r is Ok ==> old(self).works_side(*final(self), *record, price, size, passive),
            r is Err ==> old(self).side_fills(
                *record,
                price,
                size,
                passive,
                old(self).unhindered(*final(self), *old(strategy), *final(strategy)),
            ),
    {
        proof {
            talked_not(*strategy, self.talk@);
        }
        let ghost start = *self;
        let ghost base = self.ledger.fills@.len() as int;
        let key = key_for(&record.instrument, record.outcome);
        let eligible = self.desk.resting_index.reached_by_trade(&key, passive, price);
        proof {
            start.advances_itself();
            assert(start.ledger.fills@.skip(base) =~= Seq::<Fill>::empty());
            assert forall|j: int| 0 <= j < eligible@.len() implies start.desk.orders@.dom().contains(
                (#[trigger] eligible@[j]).1.0,
            ) && start.desk.orders@[eligible@[j].1.0].side == passive && market_of(
                start.desk.orders@[eligible@[j].1.0],
            ) == key@ && reaches(passive, eligible@[j].0.0 as int, price.0 as int) by {
                let e: RestingEntry = (passive, key@, eligible@[j].0.0, eligible@[j].1.0);
                assert(start.desk.resting_index.rests(e.0, e.1, e.2, e.3));
                assert(start.desk.resting_index.entries().contains(e));
            }
        }
        let mut remaining: i64 = size.0;
        let mut i: usize = 0;
        while i < eligible.len() && remaining > 0
            invariant
                i <= eligible@.len(),
                start.works_queue(
                    *self,
                    eligible@.take(i as int),
                    size.0 as int,
                    remaining as int,
                    record.stamps.ts_init,
                ),
                start == *old(self),
                base == start.ledger.fills@.len(),
                key@ == (record.instrument@, record.outcome.0),
                start.reached(eligible@, passive, key@, price),
                self.sound(),
                strategy.ready(),
                old(strategy).willing() ==> strategy.willing(),
                talked(*old(strategy), *strategy, old(self).talk@, self.talk@),
                start.advanced(*self),
                forall|j: int|
                    0 <= j < eligible@.len() ==> start.desk.orders@.dom().contains(
                        (#[trigger] eligible@[j]).1.0,
                    ) && start.desk.orders@[eligible@[j].1.0].side == passive && market_of(
                        start.desk.orders@[eligible@[j].1.0],
                    ) == key@ && reaches(passive, eligible@[j].0.0 as int, price.0 as int),
                remaining <= size.0,
                remaining >= 0 || size.0 < 0,
                volume(self.ledger.fills@.skip(base)) + print_size(Qty(remaining)) <= print_size(
                    size,
                ),
                forall|j: int|
                    base <= j < self.ledger.fills@.len() ==> passive_fill(
                        #[trigger] self.ledger.fills@[j],
                        passive,
                        key@,
                        price,
                        record.stamps.ts_init,
                    ),
            decreases eligible@.len() - i,
        {
            let (limit, id) = eligible[i];
            let ghost before = *self;
            proof {
                assert(start.desk.orders@.dom().contains(eligible@[i as int].1.0));
                assert(self.desk.orders@.dom().contains(id.0));
                assert(same_order(start.desk.orders@[id.0], self.desk.orders@[id.0]));
            }
            let ahead: i64 = match self.desk.queue_ahead.get(&id.0) {
                Some(size) => *size,
                None => 0,
            };
            let wanted: i64 = match self.desk.orders.get(&id.0) {
                Some(order) => order.remaining().0,
                None => 0,
            };
            let (still_ahead, left, fill) = share_of_print(remaining, ahead, wanted);
            self.desk.queue_ahead.insert(id.0, still_ahead);
            let ghost had = remaining;
            remaining = left;
            let absorbed = fill == 0 && left <= 0;
            let ghost queued = *self;
            assert(start.advanced(queued));
            if fill > 0 {
                let ghost asked = *strategy;
                let done = self.execute(id, limit, Qty(fill), false, record.ts(), strategy);
                if let Err(e) = done {
                    proof {
                        Self::free_all_along(
                            old(self).talk@,
                            before.talk@,
                            *self,
                            *old(strategy),
                            asked,
                            *strategy,
                        );
                        let quiet = old(self).unhindered(*self, *old(strategy), *strategy);
                        let ts = record.stamps.ts_init;
                        assert(before.print_stops(eligible@[i as int], had as int, ts, quiet));
                        assert(start.works_queue(
                            before,
                            eligible@.take(i as int),
                            size.0 as int,
                            had as int,
                            ts,
                        ));
                        assert(start.side_fills(*record, price, size, passive, quiet));
                    }
                    return Err(e);
                }
                proof {
                    talked_again(
                        *old(strategy),
                        asked,
                        *strategy,
                        old(self).talk@,
                        queued.talk@,
                        self.talk@,
                    );
                    Self::advanced_again(start, queued, *self);
                    let done = self.ledger.fills@.last();
                    volume_grows(before.ledger.fills@, self.ledger.fills@, base, done);
                    assert forall|j: int|
                        base <= j < self.ledger.fills@.len() implies passive_fill(
                        #[trigger] self.ledger.fills@[j],
                        passive,
                        key@,
                        price,
                        record.stamps.ts_init,
                    ) by {
                        if j < before.ledger.fills@.len() {
                            assert(self.ledger.fills@[j] == before.ledger.fills@[j]);
                        } else {
                            assert(self.ledger.fills@[j] == done);
                        }
                    }
                }
            }
            let ghost filled = *self;
            if !absorbed && !is_open(&self.desk.orders, id) {
                self.desk.queue_ahead.remove(&id.0);
            }
            proof {
                let longer = eligible@.take(i + 1);
                assert(longer.drop_last() =~= eligible@.take(i as int));
                assert(longer.last() == eligible@[i as int]);
                assert(before.works_one(
                    queued,
                    filled,
                    *self,
                    longer.last(),
                    had as int,
                    left as int,
                    record.stamps.ts_init,
                ));
            }
            i += 1;
        }
        let ghost worked = *self;
        proof {
            Self::idle_extends(
                start,
                worked,
                eligible@,
                i as int,
                size.0 as int,
                remaining as int,
                record.stamps.ts_init,
            );
        }
        self.desk.prune_resting();
        proof {
            worked.advances_itself();
            assert(worked.advanced(*self));
            Self::advanced_again(start, worked, *self);
            assert(start.works_print(
                *self,
                eligible@,
                worked,
                remaining as int,
                passive,
                key@,
                price,
                size,
                record.stamps.ts_init,
            ));
        }
        Ok(())
    }

    /// Whether a list holds the resting orders a record gives another chance
    /// to match.
    pub(crate) open spec fn offers(self, record: Record, market: KeyView, ids: Seq<OrderId>) -> bool {
        match self.market.book_in(market) {
            None => ids.len() == 0,
            Some(book) => {
                let bid = best_price(book, Side::Buy);
                let ask = best_price(book, Side::Sell);
                if record.event is Corporate {
                    ids == self.desk.resting@.filter(
                        open_for(self.desk.orders@, record.instrument@),
                    )
                } else if self.fill_model.keeps_prices() {
                    ascending(ids) && forall|id: u64|
                        ids.contains(OrderId(id)) <==> #[trigger] self.desk.resting_index.crosses(
                            market,
                            bid,
                            ask,
                            id,
                        )
                } else {
                    ascending(ids) && forall|id: u64|
                        #![trigger ids.contains(OrderId(id))]
                        ids.contains(OrderId(id)) <==> exists|side: Side, price: i64| #[trigger]
                            self.desk.resting_index.rests(side, market, price, id)
                }
            },
        }
    }

    /// The resting orders a record gives another chance to match.
    ///
    /// A split can restate every outcome of its instrument, so it offers all
    /// of them. A fill model that keeps the book's prices can only reach
    /// what the top of the book crosses; one that does not is offered every
    /// order in the market.
    pub(crate) fn candidates(&self, record: &Record, key: &PositionKey) -> (ids: Vec<OrderId>)
        requires
            self.sound(),
        ensures
            self.offers(*record, key@, ids@),
    {
        let book = match self.market.book(key) {
            Some(book) => book,
            None => {
                return Vec::new();
            },
        };
        let best_bid = match book.best_bid() {
            Some((price, _)) => Some(price),
            None => None,
        };
        let best_ask = match book.best_ask() {
            Some((price, _)) => Some(price),
            None => None,
        };
        if matches!(&record.event, MarketEvent::Corporate(_)) {
            keep_instrument(&self.desk.resting, &self.desk.orders, &record.instrument)
        } else if self.fill_model.preserves_book_prices() {
            self.desk.resting_index.crossing_top(key, best_bid, best_ask)
        } else {
            self.desk.resting_index.all_for_market(key)
        }
    }

    /// The new fills are all for orders on a list.
    pub(crate) open spec fn fills_only(self, after: Self, ids: Seq<OrderId>, ts: UnixNanos) -> bool {
        forall|i: int|
            self.ledger.fills@.len() <= i < after.ledger.fills@.len() ==> ids.contains(
                (#[trigger] after.ledger.fills@[i]).order_id,
            ) && after.ledger.fills@[i].ts == ts
    }

    /// The orders a record offers another chance, tried one after another,
    /// and the finished ones taken off the lists.
    pub(crate) open spec fn rematches(
        self,
        after: Self,
        record: Record,
        market: KeyView,
        ids: Seq<OrderId>,
        tried: Self,
    ) -> bool {
        &&& self.offers(record, market, ids)
        &&& self.tries_all(tried, ids, record.stamps.ts_init)
        &&& self.fills_only(tried, ids, record.stamps.ts_init)
        &&& after == (Engine { desk: after.desk, ..tried })
        &&& after.desk == (Desk {
            resting: after.desk.resting,
            resting_index: after.desk.resting_index,
            queue_ahead: after.desk.queue_ahead,
            ..tried.desk
        })
        &&& after.desk.resting@ == (if ids.len() == 0 {
            tried.desk.resting@
        } else {
            still_open(tried.desk.resting@, tried.desk.orders@)
        })
        &&& after.desk.queue_ahead@ == (if ids.len() == 0 {
            tried.desk.queue_ahead@
        } else {
            tried.desk.queue_ahead@.remove_keys(
                finished(tried.desk.resting@, tried.desk.orders@),
            )
        })
    }

    /// The resting orders a record may have crossed tried again.
    pub(crate) open spec fn reacts(self, after: Self, record: Record, market: KeyView) -> bool {
        exists|ids: Seq<OrderId>, tried: Self| #[trigger]
            self.rematches(after, record, market, ids, tried)
    }

    /// Give resting orders another chance to match after a record.
    pub(crate) fn match_resting<S: Strategy>(
        &mut self,
        record: &Record,
        key: &PositionKey,
        strategy: &mut S,
    ) -> (r: Result<(), BacktestError>)
        requires
            old(self).sound(),
            old(strategy).ready(),
        ensures
            final(self).sound(),
            final(strategy).ready(),
            old(strategy).willing() ==> final(strategy).willing(),
            r is Ok ==> talked(*old(strategy), *final(strategy), old(self).talk@, final(self).talk@),
            r is Ok ==> old(self).advanced(*final(self)),
            r is Ok ==> old(self).reacts(*final(self), *record, key@),
            r is Err ==> exists|ids: Seq<OrderId>| #[trigger]
                old(self).offers(*record, key@, ids) && old(self).comes_to_trade(
                    ids,
                    record.stamps.ts_init,
                    old(self).unhindered(*final(self), *old(strategy), *final(strategy)),
                ),
    {
        proof {
            talked_not(*strategy, self.talk@);
        }
        let ghost start = *self;
        let ids = self.candidates(record, key);
        proof {
            start.advances_itself();
        }
        if ids.len() == 0 {
            assert(start.rematches(*self, *record, key@, ids@, start));
            return Ok(());
        }
        self.try_each(&ids, record.ts(), strategy)?;
        let ghost tried = *self;
        self.desk.prune_resting();
        proof {
            tried.advances_itself();
            assert(tried.advanced(*self));
            Self::advanced_again(start, tried, *self);
            assert(start.rematches(*self, *record, key@, ids@, tried));
        }
        Ok(())
    }

    /// Try orders one after another.
    pub(crate) fn try_each<S: Strategy>(
        &mut self,
        ids: &Vec<OrderId>,
        ts: UnixNanos,
        strategy: &mut S,
    ) -> (r: Result<(), BacktestError>)
        requires
            old(self).sound(),
            old(strategy).ready(),
        ensures
            final(self).sound(),
            final(strategy).ready(),
            old(strategy).willing() ==> final(strategy).willing(),
            r is Ok ==> talked(*old(strategy), *final(strategy), old(self).talk@, final(self).talk@),
            r is Ok ==> old(self).advanced(*final(self)),
            r is Ok ==> old(self).fills_only(*final(self), ids@, ts),
            r is Ok ==> old(self).tries_all(*final(self), ids@, ts),
            r is Err ==> old(self).comes_to_trade(ids@, ts, old(self).unhindered(*final(self), *old(strategy), *final(strategy))),
    {
        proof {
            talked_not(*strategy, self.talk@);
        }
        let ghost start = *self;
        let mut i: usize = 0;
        proof {
            start.advances_itself();
        }
        while i < ids.len()
            invariant
                i <= ids@.len(),
                start == *old(self),
                self.sound(),
                strategy.ready(),
                old(strategy).willing() ==> strategy.willing(),
                talked(*old(strategy), *strategy, old(self).talk@, self.talk@),
                start.advanced(*self),
                start.fills_only(*self, ids@, ts),
                start.tries_all(*self, ids@.take(i as int), ts),
            decreases ids@.len() - i,
        {
            let ghost before = *self;
            let id = ids[i];
            let ghost asked = *strategy;
            let tried = self.try_fill(id, ts, strategy);
            proof {
                Self::free_all_along(
                    old(self).talk@,
                    before.talk@,
                    *self,
                    *old(strategy),
                    asked,
                    *strategy,
                );
                if tried is Err {
                    assert(start.tries_all(before, ids@.take(i as int), ts));
                    assert(before.finds_levels(ids@[i as int], ts, old(self).unhindered(*self, *old(strategy), *strategy)));
                }
            }
            tried?;
            proof {
                talked_again(
                    *old(strategy),
                    asked,
                    *strategy,
                    old(self).talk@,
                    before.talk@,
                    self.talk@,
                );
                Self::advanced_again(start, before, *self);
                Self::trying_fills_one(before, *self, id, ts);
                assert(ids@.contains(id)) by {
                    assert(ids@[i as int] == id);
                }
                assert forall|j: int|
                    start.ledger.fills@.len() <= j < self.ledger.fills@.len() implies ids@.contains(
                    (#[trigger] self.ledger.fills@[j]).order_id,
                ) && self.ledger.fills@[j].ts == ts by {
                    if j < before.ledger.fills@.len() {
                        assert(self.ledger.fills@[j] == before.ledger.fills@[j]);
                    }
                }
                assert(ids@.take(i + 1).drop_last() =~= ids@.take(i as int));
                assert(ids@.take(i + 1).last() == id);
                assert(before.tries(*self, id, ts));
            }
            i += 1;
        }
        assert(ids@.take(i as int) =~= ids@);
        Ok(())
    }

    /// Orders tried one after another.
    pub(crate) open spec fn tries_all(self, after: Self, ids: Seq<OrderId>, ts: UnixNanos) -> bool
        decreases ids.len(),
    {
        if ids.len() == 0 {
            after == self
        } else {
            exists|between: Self|
                self.tries_all(between, ids.drop_last(), ts) && #[trigger] between.tries(
                    after,
                    ids.last(),
                    ts,
                )
        }
    }

    /// Trying orders one after another comes to a trade.
    pub(crate) open spec fn comes_to_trade(
        self,
        ids: Seq<OrderId>,
        ts: UnixNanos,
        quiet: bool,
    ) -> bool {
        exists|k: int, between: Self|
            0 <= k < ids.len() && #[trigger] self.tries_all(between, ids.take(k), ts)
                && #[trigger] between.finds_levels(ids[k], ts, quiet)
    }

    /// Trying one order fills that order and no other.
    pub(crate) proof fn trying_fills_one(a: Self, b: Self, id: OrderId, ts: UnixNanos)
        requires
            a.sound(),
            a.tries(b, id, ts),
            a.advanced(b),
        ensures
            forall|i: int|
                a.ledger.fills@.len() <= i < b.ledger.fills@.len() ==> (
                #[trigger] b.ledger.fills@[i]).order_id == id && b.ledger.fills@[i].ts == ts
                    && b.ledger.fills@[i].side == a.desk.orders@[id.0].side
                    && b.ledger.fills@[i].is_taker == !a.desk.orders@[id.0].post_only,
    {
        assert forall|i: int|
            a.ledger.fills@.len() <= i < b.ledger.fills@.len() implies (
        #[trigger] b.ledger.fills@[i]).order_id == id && b.ledger.fills@[i].ts == ts
            && b.ledger.fills@[i].side == a.desk.orders@[id.0].side && b.ledger.fills@[i].is_taker
            == !a.desk.orders@[id.0].post_only by {
            assert(open_in(a.desk.orders@, id.0));
            let base = a.ledger.fills@.len();
            assert(b.ledger.fills@[base + (i - base)] == b.ledger.fills@[i]);
        }
    }
}

} // verus!
