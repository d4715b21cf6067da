//! What the venue does on its own clock: close markets that expired, release
//! the stops the mark has reached, and work schedules slice by slice.

use vstd::prelude::*;
use vstd::string::*;

use crate::account::MarginModel;
use crate::calls::venue_order;
use crate::checks::{expired_text, market_of, Orders};
use crate::desk::{called_off, not_among, numbers_of, on_instrument, Desk};
use crate::engine::{extends, orders_known, same_order, Board, Engine, Journal};
use crate::error::BacktestError;
use crate::execution::ExecutionClient;
use crate::margin::{label_of, labelled};
use crate::market::{key_for, price_in, Market, Prices};
use crate::metrics::{bumped, one_more, RunMetrics};
use crate::models::{FeeModel, FillModel, LatencyModel};
use crate::order::{Order, OrderId, OrderStatus};
use crate::ordered::SortedMap;
use crate::request::{worked_at, TwapProgress};
use crate::strategy::{talked, talked_again, talked_not, Strategy};
use crate::text::int_text;
use crate::types::{Qty, UnixNanos};

verus! {

/// A stop waiting for its mark.
pub open spec fn is_parked(orders: Orders, id: OrderId) -> bool {
    orders.dom().contains(id.0) && orders[id.0].status is Untriggered && orders[id.0].trigger is Some
}

/// Whether the mark has reached the price an order waits for.
pub open spec fn reached(marks: Prices, order: Order) -> bool {
    match (order.trigger, price_in(marks, market_of(order))) {
        (Some(trigger), Some(mark)) => trigger.fires(mark),
        _ => false,
    }
}

/// The stops that go now.
pub open spec fn released(orders: Orders, marks: Prices) -> spec_fn(OrderId) -> bool {
    |id: OrderId| is_parked(orders, id) && reached(marks, orders[id.0])
}

/// The stops that stay.
pub open spec fn withheld(orders: Orders, marks: Prices) -> spec_fn(OrderId) -> bool {
    |id: OrderId| is_parked(orders, id) && !reached(marks, orders[id.0])
}

/// Schedules, each one moved on to an instant.
pub open spec fn moved_on(twaps: Seq<TwapProgress>, ts: UnixNanos) -> Seq<TwapProgress> {
    Seq::new(twaps.len(), |i: int| worked_at(twaps[i], ts).0)
}

/// What each schedule sends at an instant.
pub open spec fn slices_at(twaps: Seq<TwapProgress>, ts: UnixNanos) -> Seq<Option<Qty>> {
    Seq::new(twaps.len(), |i: int| worked_at(twaps[i], ts).1)
}

/// Sort the stops a venue holds into those that go and those that stay.
fn sort_stops(ids: &Vec<OrderId>, orders: &SortedMap<u64, Order>, market: &Market) -> (r: (
    Vec<OrderId>,
    Vec<OrderId>,
))
    requires
        orders.wf(),
        market.wf(),
    ensures
        r.0@ == ids@.filter(released(orders@, market.marks@)),
        r.1@ == ids@.filter(withheld(orders@, market.marks@)),
{
    let ghost goes = released(orders@, market.marks@);
    let ghost stays = withheld(orders@, market.marks@);
    let mut ready: Vec<OrderId> = Vec::new();
    let mut parked: Vec<OrderId> = Vec::new();
    let mut i: usize = 0;
    reveal(Seq::filter);
    assert(ids@.take(0) =~= Seq::<OrderId>::empty());
    while i < ids.len()
        invariant
            i <= ids@.len(),
            orders.wf(),
            market.wf(),
            goes == released(orders@, market.marks@),
            stays == withheld(orders@, market.marks@),
            ready@ == ids@.take(i as int).filter(goes),
            parked@ == ids@.take(i as int).filter(stays),
        decreases ids@.len() - i,
    {
        let id = ids[i];
        proof {
            reveal(Seq::filter);
            assert(ids@.take(i + 1).drop_last() =~= ids@.take(i as int));
        }
        if let Some(order) = orders.get(&id.0) {
            if matches!(order.status, OrderStatus::Untriggered) {
                if let Some(trigger) = order.trigger {
                    let fires = match market.mark(&key_for(&order.instrument, order.outcome)) {
                        Some(price) => trigger.fires_at(price),
                        None => false,
                    };
                    if fires {
                        ready.push(id);
                    } else {
                        parked.push(id);
                    }
                }
            }
        }
        i += 1;
    }
    assert(ids@.take(i as int) =~= ids@);
    (ready, parked)
}

impl<F: FeeModel, L: FillModel, T: LatencyModel, M: MarginModel, X: ExecutionClient> Engine<
    F,
    L,
    T,
    M,
    X,
> {
    /// One expiry dealt with: the instrument stops trading, and what rests
    /// on it is called off. A second expiry of one instrument does nothing.
    pub(crate) open spec fn expires_next(self, after: Self) -> bool {
        let (at, instrument) = self.board.expiries@[self.board.next_expiry as int];
        let ids = self.desk.resting@.filter(on_instrument(self.desk.orders@, instrument@));
        let next_expiry = (self.board.next_expiry + 1) as usize;
        if self.board.expired@.dom().contains(instrument@) {
            after == (Engine { board: Board { next_expiry, ..self.board }, ..self })
        } else {
            &&& after == (Engine {
                board: after.board,
                desk: after.desk,
                journal: after.journal,
                ..self
            })
            &&& after.board == (Board {
                next_expiry,
                expired: after.board.expired,
                expirations: after.board.expirations,
                ..self.board
            })
            &&& after.board.expired@ == self.board.expired@.insert(instrument@, ())
            &&& after.board.expirations@ == self.board.expirations@.push(
                (instrument, UnixNanos(at)),
            )
            &&& after.desk == (Desk {
                orders: after.desk.orders,
                resting: after.desk.resting,
                resting_index: after.desk.resting_index,
                queue_ahead: after.desk.queue_ahead,
                ..self.desk
            })
            &&& exists|reason: String|
                reason@ == instrument@ + " stopped trading at "@ + int_text(at as int)
                    && after.desk.orders@ == #[trigger] called_off(self.desk.orders@, ids, reason)
            &&& after.desk.resting@ == self.desk.resting@.filter(not_among(ids))
            &&& after.desk.queue_ahead@ == self.desk.queue_ahead@.remove_keys(numbers_of(ids))
            &&& after.journal == (Journal { metrics: after.journal.metrics, ..self.journal })
            &&& after.journal.metrics == (RunMetrics {
                instruments_expired: bumped(self.journal.metrics.instruments_expired),
                ..self.journal.metrics
            })
        }
    }

    /// A number of expiries, one after another.
    pub(crate) open spec fn expires_some(self, after: Self, n: nat) -> bool
        decreases n,
    {
        if n == 0 {
            after == self
        } else {
            exists|between: Self|
                self.expires_some(between, (n - 1) as nat) && #[trigger] between.expires_next(
                    after,
                )
        }
    }

    /// Everything due by an instant, and nothing later.
    pub(crate) open spec fn expires_by(self, after: Self, ts: UnixNanos) -> bool {
        let from = self.board.next_expiry;
        let to = after.board.next_expiry;
        let expiries = self.board.expiries@;
        &&& from <= to
        &&& from < to ==> to <= expiries.len()
        &&& self.expires_some(after, (to - from) as nat)
        &&& forall|i: int| from <= i < to ==> (#[trigger] expiries[i]).0 <= ts.0
        &&& to < expiries.len() ==> expiries[to as int].0 > ts.0
    }

    /// What moves when markets expire: the board, the orders that rested,
    /// and a counter.
    pub(crate) open spec fn only_expired(self, after: Self) -> bool {
        &&& after == (Engine {
            board: after.board,
            desk: after.desk,
            journal: after.journal,
            ..self
        })
        &&& after.board.delisted == self.board.delisted
        &&& after.journal == (Journal { metrics: after.journal.metrics, ..self.journal })
        &&& after.journal.metrics == (RunMetrics {
            instruments_expired: after.journal.metrics.instruments_expired,
            ..self.journal.metrics
        })
        &&& after.desk.next_order_id == self.desk.next_order_id
        &&& orders_known(self.desk.orders@, after.desk.orders@)
    }

    /// Stop trading anything whose expiry the clock has now passed.
    ///
    /// Trading stops; the data does not. Resting orders are cancelled rather
    /// than left to rot, because an order that can never fill and never
    /// terminates is indistinguishable in a report from one still working.
    pub(crate) fn expire_due(&mut self, ts: UnixNanos)
        requires
            old(self).sound(),
        ensures
            final(self).sound(),
            old(self).expires_by(*final(self), ts),
            old(self).only_expired(*final(self)),
            old(self).balanced() ==> final(self).balanced(),
    {
        let ghost start = *self;
        while self.board.next_expiry < self.board.expiries.len()
            && self.board.expiries[self.board.next_expiry].0 <= ts.0
            invariant
                self.sound(),
                start == *old(self),
                start.only_expired(*self),
                self.board.expiries == start.board.expiries,
                start.board.next_expiry <= self.board.next_expiry,
                start.board.next_expiry < self.board.next_expiry ==> self.board.next_expiry
                    <= start.board.expiries@.len(),
                start.expires_some(
                    *self,
                    (self.board.next_expiry - start.board.next_expiry) as nat,
                ),
                forall|i: int|
                    start.board.next_expiry <= i < self.board.next_expiry ==> (
                    #[trigger] start.board.expiries@[i]).0 <= ts.0,
                start.balanced() ==> self.balanced(),
            decreases self.board.expiries@.len() - self.board.next_expiry,
        {
            let ghost before = *self;
            let at: i64 = self.board.expiries[self.board.next_expiry].0;
            let instrument = self.board.expiries[self.board.next_expiry].1.clone();
            self.board.next_expiry = self.board.next_expiry + 1;
            if !self.board.expired.contains_key(&instrument) {
                self.board.expired.insert(instrument.clone(), ());
                let ids = self.desk.resting_in(&instrument);
                let reason = expired_text(&instrument, UnixNanos(at));
                self.desk.call_off(&ids, &reason);
                self.board.expirations.push((instrument, UnixNanos(at)));
                self.journal.metrics.instruments_expired = one_more(
                    self.journal.metrics.instruments_expired,
                );
                assert(self.desk.orders@ == called_off(before.desk.orders@, ids@, reason));
            }
            proof {
                assert(before.expires_next(*self));
                assert forall|k: u64| #[trigger]
                    start.desk.orders@.dom().contains(k) implies self.desk.orders@.dom().contains(k)
                    && same_order(start.desk.orders@[k], self.desk.orders@[k]) by {
                    assert(before.desk.orders@.dom().contains(k));
                }
            }
        }
    }

    /// A stop released: from here it is an ordinary order.
    pub(crate) open spec fn arms(self, armed: Self, id: OrderId, ts: UnixNanos) -> bool {
        &&& self.desk.orders@.dom().contains(id.0)
        &&& armed == (Engine { desk: armed.desk, journal: armed.journal, ..self })
        &&& armed.desk == (Desk { orders: armed.desk.orders, ..self.desk })
        &&& armed.desk.orders@ == self.desk.orders@.insert(
            id.0,
            (Order {
                trigger: None,
                status: OrderStatus::Accepted,
                accepted_at: Some(ts),
                ..self.desk.orders@[id.0]
            }),
        )
        &&& armed.journal == (Journal { metrics: armed.journal.metrics, ..self.journal })
        &&& armed.journal.metrics == (RunMetrics {
            orders_triggered: bumped(self.journal.metrics.orders_triggered),
            ..self.journal.metrics
        })
    }

    /// A stop released and tried.
    pub(crate) open spec fn fires(self, after: Self, id: OrderId, ts: UnixNanos) -> bool {
        exists|armed: Self| #[trigger] self.arms(armed, id, ts) && armed.tries(after, id, ts)
    }

    /// Stops released one after another.
    pub(crate) open spec fn fires_all(self, after: Self, ids: Seq<OrderId>, ts: UnixNanos) -> bool
        decreases ids.len(),
    {
        if ids.len() == 0 {
            after == self
        } else {
            exists|between: Self|
                self.fires_all(between, ids.drop_last(), ts) && #[trigger] between.fires(
                    after,
                    ids.last(),
                    ts,
                )
        }
    }

    /// The stops sorted: those reached leave the venue's list, those no
    /// longer waiting are forgotten, and the rest stay.
    pub(crate) open spec fn sorts_stops(self, sorted: Self) -> bool {
        &&& sorted == (Engine { desk: sorted.desk, ..self })
        &&& sorted.desk == (Desk { untriggered: sorted.desk.untriggered, ..self.desk })
        &&& sorted.desk.untriggered@ == self.desk.untriggered@.filter(
            withheld(self.desk.orders@, self.market.marks@),
        )
    }

    /// Every stop the mark has reached released, in the order they were
    /// parked.
    pub(crate) open spec fn releases_stops(self, after: Self, ts: UnixNanos) -> bool {
        exists|sorted: Self| #[trigger]
            self.sorts_stops(sorted) && sorted.fires_all(
                after,
                self.desk.untriggered@.filter(released(self.desk.orders@, self.market.marks@)),
                ts,
            )
    }

    /// Releasing the stops the mark has reached comes to a trade.
    pub(crate) open spec fn stop_trades(self, ts: UnixNanos, quiet: bool) -> bool {
        let ids = self.desk.untriggered@.filter(released(self.desk.orders@, self.market.marks@));
        exists|sorted: Self, k: int, between: Self, armed: Self|
            0 <= k < ids.len() && #[trigger] self.sorts_stops(sorted)
                && #[trigger] sorted.fires_all(between, ids.take(k), ts)
                && #[trigger] between.arms(armed, ids[k], ts) && armed.finds_levels(
                ids[k],
                ts,
                quiet,
            )
    }

    /// Release stops and take-profits the mark has now reached.
    ///
    /// Fires on the mark rather than the book: a one-print wick should not
    /// stop you out of a position the venue still values calmly. A triggered
    /// order becomes an ordinary order at that instant and meets the book
    /// from there, which is why a stop can and does fill worse than its
    /// trigger.
    pub(crate) fn arm_triggers<S: Strategy>(&mut self, ts: UnixNanos, strategy: &mut S) -> (r:
        Result<(), BacktestError>)
        requires
            old(self).sound(),
            old(strategy).ready(),
        ensures
            final(self).sound(),
            final(strategy).ready(),
            old(strategy).willing() ==> final(strategy).willing(),
            r is Ok ==> talked(*old(strategy), *final(strategy), old(self).talk@, final(self).talk@),
            r is Ok ==> old(self).advanced(*final(self)),
            r is Ok ==> old(self).releases_stops(*final(self), ts),
            r is Err ==> old(self).stop_trades(ts, old(self).unhindered(*final(self), *old(strategy), *final(strategy))),
    {
        proof {
            talked_not(*strategy, self.talk@);
        }
        let ghost start = *self;
        let (ready, parked) = sort_stops(
            &self.desk.untriggered,
            &self.desk.orders,
            &self.market,
        );
        self.desk.untriggered = parked;
        let ghost sorted = *self;
        proof {
            assert(start.sorts_stops(sorted));
            start.advances_itself();
            assert(start.advanced(sorted));
            assert(ready@.take(0) =~= Seq::<OrderId>::empty());
            crate::desk::filter_contains(
                start.desk.untriggered@,
                released(start.desk.orders@, start.market.marks@),
            );
            assert forall|i: int| 0 <= i < ready@.len() implies start.desk.orders@.dom().contains(
                (#[trigger] ready@[i]).0,
            ) by {
                assert(ready@.contains(ready@[i]));
            }
        }
        let mut i: usize = 0;
        while i < ready.len()
            invariant
                i <= ready@.len(),
                self.sound(),
                strategy.ready(),
                old(strategy).willing() ==> strategy.willing(),
                talked(*old(strategy), *strategy, old(self).talk@, self.talk@),
                start == *old(self),
                start.sorts_stops(sorted),
                ready@ == start.desk.untriggered@.filter(
                    released(start.desk.orders@, start.market.marks@),
                ),
                start.advanced(*self),
                sorted.fires_all(*self, ready@.take(i as int), ts),
                forall|j: int|
                    0 <= j < ready@.len() ==> start.desk.orders@.dom().contains(
                        (#[trigger] ready@[j]).0,
                    ),
            decreases ready@.len() - i,
        {
            let id = ready[i];
            let ghost before = *self;
            assert(start.desk.orders@.dom().contains(id.0));
            let mut order = match self.desk.order(id) {
                Some(order) => order,
                None => {
                    return Ok(());
                },
            };
            order.trigger = None;
            order.status = OrderStatus::Accepted;
            order.accepted_at = Some(ts);
            self.desk.file(order);
            self.journal.metrics.orders_triggered = one_more(
                self.journal.metrics.orders_triggered,
            );
            let ghost armed = *self;
            let ghost asked = *strategy;
            let tried = self.try_fill(id, ts, strategy);
            proof {
                assert(before.arms(armed, ready@[i as int], ts));
                Self::free_all_along(
                    old(self).talk@,
                    armed.talk@,
                    *self,
                    *old(strategy),
                    asked,
                    *strategy,
                );
                if tried is Err {
                    assert(sorted.fires_all(before, ready@.take(i as int), ts));
                    assert(armed.finds_levels(ready@[i as int], ts, old(self).unhindered(*self, *old(strategy), *strategy)));
                    assert(start.stop_trades(ts, old(self).unhindered(*self, *old(strategy), *strategy)));
                }
            }
            tried?;
            proof {
                talked_again(
                    *old(strategy),
                    asked,
                    *strategy,
                    old(self).talk@,
                    armed.talk@,
                    self.talk@,
                );
                before.advances_itself();
                assert(before.advanced(armed));
                Self::advanced_again(before, armed, *self);
                Self::advanced_again(start, before, *self);
                assert(ready@.take(i + 1).drop_last() =~= ready@.take(i as int));
                assert(ready@.take(i + 1).last() == id);
                assert(before.fires(*self, ready@.take(i + 1).last(), ts));
            }
            i += 1;
        }
        assert(ready@.take(i as int) =~= ready@);
        Ok(())
    }

    /// One slice of a schedule on file.
    pub(crate) open spec fn sends(
        self,
        filed: Self,
        order: Order,
        twap: TwapProgress,
        slice: Qty,
        ts: UnixNanos,
    ) -> bool {
        &&& self.desk.next_order_id < u64::MAX
        &&& order.id.0 == self.desk.next_order_id + 1
        &&& order == venue_order(
            order.id,
            twap.request.instrument,
            twap.request.outcome,
            twap.request.side,
            slice,
            ts,
            labelled(twap.request.tag, self.setup.labels.twap),
            twap.request.reduce_only,
        )
        &&& filed == (Engine { desk: filed.desk, journal: filed.journal, ..self })
        &&& filed.desk == (Desk {
            orders: filed.desk.orders,
            next_order_id: order.id.0,
            ..self.desk
        })
        &&& filed.desk.orders@ == self.desk.orders@.insert(order.id.0, order)
        &&& filed.journal == (Journal { metrics: filed.journal.metrics, ..self.journal })
        &&& filed.journal.metrics == (RunMetrics {
            twap_slices: bumped(self.journal.metrics.twap_slices),
            ..self.journal.metrics
        })
    }

    /// One slice of a schedule sent and tried, where there is one.
    pub(crate) open spec fn works_slice(
        self,
        after: Self,
        twap: TwapProgress,
        slice: Option<Qty>,
        ts: UnixNanos,
    ) -> bool {
        match slice {
            None => after == self,
            Some(size) => exists|filed: Self, order: Order| #[trigger]
                self.sends(filed, order, twap, size, ts) && filed.tries(after, order.id, ts),
        }
    }

    /// The slices of a number of schedules, one after another.
    pub(crate) open spec fn works_slices(
        self,
        after: Self,
        twaps: Seq<TwapProgress>,
        ts: UnixNanos,
        n: nat,
    ) -> bool
        decreases n,
    {
        if n == 0 {
            after == self
        } else {
            exists|between: Self|
                self.works_slices(between, twaps, ts, (n - 1) as nat)
                    && #[trigger] between.works_slice(
                    after,
                    twaps[n - 1],
                    slices_at(twaps, ts)[n - 1],
                    ts,
                )
        }
    }

    /// Every schedule moved on to an instant.
    pub(crate) open spec fn moves_schedules(self, moved: Self, ts: UnixNanos) -> bool {
        &&& moved == (Engine { desk: moved.desk, ..self })
        &&& moved.desk == (Desk { twaps: moved.desk.twaps, ..self.desk })
        &&& moved.desk.twaps@ == moved_on(self.desk.twaps@, ts)
    }

    /// Every schedule moved on, and what was due sent in the order the
    /// schedules were started.
    pub(crate) open spec fn works_schedules(self, after: Self, ts: UnixNanos) -> bool {
        exists|moved: Self| #[trigger]
            self.moves_schedules(moved, ts) && moved.works_slices(
                after,
                self.desk.twaps@,
                ts,
                self.desk.twaps@.len(),
            )
    }

    /// Working the schedules comes to a slice that cannot be sent, or that
    /// trades.
    pub(crate) open spec fn slice_trades(self, ts: UnixNanos, quiet: bool) -> bool {
        exists|moved: Self, k: nat, between: Self|
            k < self.desk.twaps@.len() && #[trigger] self.moves_schedules(moved, ts)
                && #[trigger] moved.works_slices(between, self.desk.twaps@, ts, k)
                && between.slice_stops(
                self.desk.twaps@[k as int],
                slices_at(self.desk.twaps@, ts)[k as int],
                ts,
                quiet,
            )
    }

    /// Whether one slice cannot be sent, or trades.
    pub(crate) open spec fn slice_stops(
        self,
        twap: TwapProgress,
        slice: Option<Qty>,
        ts: UnixNanos,
        quiet: bool,
    ) -> bool {
        slice matches Some(size) && (size.0 <= 0 || self.desk.next_order_id == u64::MAX || exists|
            filed: Self,
            order: Order,
        | #[trigger]
            self.sends(filed, order, twap, size, ts) && filed.finds_levels(order.id, ts, quiet))
    }

    /// Release any schedule slices now due.
    ///
    /// The last slice carries whatever rounding left over, so the total
    /// worked is exactly the size asked for.
    pub(crate) fn work_twaps<S: Strategy>(&mut self, ts: UnixNanos, strategy: &mut S) -> (r: Result<
        (),
        BacktestError,
    >)
        requires
            old(self).sound(),
            old(strategy).ready(),
        ensures
            final(self).sound(),
            final(strategy).ready(),
            old(strategy).willing() ==> final(strategy).willing(),
            r is Ok ==> talked(*old(strategy), *final(strategy), old(self).talk@, final(self).talk@),
            r is Ok ==> old(self).advanced(*final(self)),
            r is Ok ==> old(self).works_schedules(*final(self), ts),
            r is Err ==> old(self).slice_trades(ts, old(self).unhindered(*final(self), *old(strategy), *final(strategy))),
    {
        proof {
            talked_not(*strategy, self.talk@);
        }
        let ghost start = *self;
        let ghost first = self.desk.twaps@;
        let due = self.move_schedules(ts);
        let ghost moved = *self;
        proof {
            start.advances_itself();
            assert(start.advanced(moved));
            assert(moved.desk.twaps@.take(first.len() as int) =~= moved.desk.twaps@);
        }
        let mut i: usize = 0;
        while i < due.len()
            invariant
                i <= due@.len(),
                due@ == slices_at(first, ts),
                first == start.desk.twaps@,
                start == *old(self),
                start.moves_schedules(moved, ts),
                self.sound(),
                strategy.ready(),
                old(strategy).willing() ==> strategy.willing(),
                talked(*old(strategy), *strategy, old(self).talk@, self.talk@),
                start.advanced(*self),
                extends(moved.desk.twaps@, self.desk.twaps@),
                moved.works_slices(*self, first, ts, i as nat),
            decreases due@.len() - i,
        {
            let ghost before = *self;
            if let Some(slice) = due[i] {
                let ghost twap = first[i as int];
                proof {
                    assert(self.desk.twaps@[i as int] == self.desk.twaps@.take(
                        moved.desk.twaps@.len() as int,
                    )[i as int]);
                    assert(self.desk.twaps@[i as int].request == twap.request);
                }
                let tag = label_of(&self.desk.twaps[i].request.tag, &self.setup.labels.twap);
                let instrument = self.desk.twaps[i].request.instrument.clone();
                let outcome = self.desk.twaps[i].request.outcome;
                let side = self.desk.twaps[i].request.side;
                let reduce_only = self.desk.twaps[i].request.reduce_only;
                let issuing = self.issue(&instrument, outcome, side, slice, ts, tag, reduce_only);
                proof {
                    if issuing is Err {
                        let quiet = old(self).unhindered(*self, *old(strategy), *strategy);
                        assert(before.slice_stops(
                            twap,
                            slices_at(first, ts)[i as int],
                            ts,
                            quiet,
                        ));
                        assert(start.slice_trades(ts, quiet));
                    }
                }
                let id = issuing?;
                let ghost issued = *self;
                self.journal.metrics.twap_slices = one_more(self.journal.metrics.twap_slices);
                let ghost filed = *self;
                let ghost order = self.desk.orders@[id.0];
                let ghost asked = *strategy;
                let tried = self.try_fill(id, ts, strategy);
                proof {
                    assert(before.sends(filed, order, twap, slice, ts));
                    Self::free_all_along(
                        old(self).talk@,
                        filed.talk@,
                        *self,
                        *old(strategy),
                        asked,
                        *strategy,
                    );
                    if tried is Err {
                        let quiet = old(self).unhindered(*self, *old(strategy), *strategy);
                        assert(before.slice_stops(
                            twap,
                            slices_at(first, ts)[i as int],
                            ts,
                            quiet,
                        ));
                        assert(start.slice_trades(ts, quiet));
                    }
                }
                tried?;
                proof {
                    talked_again(
                        *old(strategy),
                        asked,
                        *strategy,
                        old(self).talk@,
                        filed.talk@,
                        self.talk@,
                    );
                    issued.advances_itself();
                    assert(issued.advanced(filed));
                    Self::advanced_again(before, issued, filed);
                    Self::advanced_again(before, filed, *self);
                    Self::trying_only_trades(filed, *self, id, ts);
                    assert(self.desk.twaps@.take(moved.desk.twaps@.len() as int)
                        =~= self.desk.twaps@.take(before.desk.twaps@.len() as int).take(
                        moved.desk.twaps@.len() as int,
                    ));
                }
            } else {
                proof {
                    before.advances_itself();
                }
            }
            proof {
                Self::advanced_again(start, before, *self);
                let n = (i + 1) as nat;
                assert(before.works_slice(*self, first[n - 1], slices_at(first, ts)[n - 1], ts));
                assert(moved.works_slices(before, first, ts, (n - 1) as nat));
            }
            i += 1;
        }
        Ok(())
    }

    /// Move every schedule on, collecting what each one sends.
    fn move_schedules(&mut self, ts: UnixNanos) -> (due: Vec<Option<Qty>>)
        requires
            old(self).sound(),
        ensures
            final(self).sound(),
            old(self).moves_schedules(*final(self), ts),
            due@ == slices_at(old(self).desk.twaps@, ts),
    {
        let ghost first = self.desk.twaps@;
        let mut due: Vec<Option<Qty>> = Vec::new();
        let mut i: usize = 0;
        while i < self.desk.twaps.len()
            invariant
                i <= first.len(),
                self.sound(),
                first == old(self).desk.twaps@,
                self.desk.twaps@.len() == first.len(),
                *self == (Engine { desk: self.desk, ..*old(self) }),
                self.desk == (Desk { twaps: self.desk.twaps, ..old(self).desk }),
                due@.len() == i,
                forall|j: int| 0 <= j < i ==> #[trigger] due@[j] == worked_at(first[j], ts).1,
                forall|j: int|
                    0 <= j < i ==> #[trigger] self.desk.twaps@[j] == worked_at(first[j], ts).0,
                forall|j: int| i <= j < first.len() ==> #[trigger] self.desk.twaps@[j] == first[j],
            decreases first.len() - i,
        {
            let slice = self.desk.twaps[i].advance(ts);
            due.push(slice);
            i += 1;
        }
        proof {
            assert(due@ =~= slices_at(first, ts));
            assert(self.desk.twaps@ =~= moved_on(first, ts));
        }
        due
    }
}

/// A stop is reached where its market has a mark and that is at its price or
/// beyond, and never without a mark.
pub proof fn a_stop_waits_for_its_mark(marks: Prices, order: Order)
    ensures
        reached(marks, order) <==> {
            let key = (order.instrument@, order.outcome.0);
            &&& order.trigger matches Some(trigger)
            &&& marks.dom().contains(key)
            &&& trigger.direction is Above ==> marks[key].0 >= trigger.price.0
            &&& trigger.direction is Below ==> marks[key].0 <= trigger.price.0
        },
{
}

} // verus!
