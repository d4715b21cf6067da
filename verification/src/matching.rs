//! Filling orders: against the book, against prints, and at stated prices.

use vstd::prelude::*;
use vstd::string::*;

use crate::account::MarginModel;
use crate::book::{quantity_sum, walk_levels, OrderBook};
use crate::checks::{halted, market_of, stopped_trading};
use crate::desk::{open_in, queued, without, Desk};
use crate::engine::{extends, only_terms_changed, same_order, Engine, Journal};
use crate::error::BacktestError;
use crate::execution::ExecutionClient;
use crate::instrument::Instrument;
use crate::ledger::{cannot_settle, quantity_in, settled};
use crate::market::key_for;
use crate::metrics::{bumped, one_more, RunMetrics};
use crate::models::{FeeContext, FeeModel, FillModel, LatencyModel};
use crate::order::{
    can_record, clone_text, recorded, Fill, Order, OrderId, OrderKind, OrderStatus, TimeInForce,
};
use crate::position::KeyView;
use crate::resting::reaches;
use crate::strategy::{talked, talked_again, talked_not, Strategy, Told};
use crate::types::{saturated, saturating_difference, Money, Price, Qty, Side, UnixNanos};

verus! {

/// Where a fill comes from.
#[derive(Clone, Copy, PartialEq, Eq, Debug, Structural)]
pub enum FillOrigin {
    /// Against the market.
    Trade { is_taker: bool },
    /// A leg of a complete set, which neither takes nor provides liquidity.
    CompleteSet,
}

/// What a fill is done at.
#[derive(Clone, Copy, PartialEq, Eq, Debug, Structural)]
pub struct FillTerms {
    pub price: Price,
    pub quantity: Qty,
    pub origin: FillOrigin,
    pub commission: Money,
}

/// The fill an order has under given terms.
pub open spec fn fill_of(order: Order, terms: FillTerms, ts: UnixNanos) -> Fill {
    Fill {
        order_id: order.id,
        instrument: order.instrument,
        outcome: order.outcome,
        side: order.side,
        price: terms.price,
        quantity: terms.quantity,
        commission: terms.commission,
        is_taker: terms.origin == (FillOrigin::Trade { is_taker: true }),
        ts,
        tag: order.tag,
    }
}

/// A fill of an order at one level, whatever it was charged.
pub open spec fn fills_level(
    fill: Fill,
    order: Order,
    level: (Price, Qty),
    is_taker: bool,
    ts: UnixNanos,
) -> bool {
    fill == fill_of(
        order,
        FillTerms {
            price: level.0,
            quantity: level.1,
            origin: FillOrigin::Trade { is_taker },
            commission: fill.commission,
        },
        ts,
    )
}

/// One fill for each level, in order, added to what was there.
pub open spec fn fills_added(
    before: Seq<Fill>,
    after: Seq<Fill>,
    order: Order,
    levels: Seq<(Price, Qty)>,
    is_taker: bool,
    ts: UnixNanos,
) -> bool {
    &&& after.len() == before.len() + levels.len()
    &&& extends(before, after)
    &&& forall|i: int|
        0 <= i < levels.len() ==> fills_level(
            #[trigger] after[before.len() + i],
            order,
            levels[i],
            is_taker,
            ts,
        )
}

/// The book an order is matched against: the venue's, unless the fill model
/// puts another in its place.
pub open spec fn effective_book(shape: Option<OrderBook>, book: OrderBook) -> OrderBook {
    match shape {
        Some(reshaped) => reshaped,
        None => book,
    }
}

/// How much of a position an order on a side would close.
pub open spec fn closable(side: Side, held: Qty) -> int {
    match side {
        Side::Buy => if held.0 < 0 {
            saturated(-held.0)
        } else {
            0
        },
        Side::Sell => if held.0 > 0 {
            held.0 as int
        } else {
            0
        },
    }
}

/// How much an order asks the book for: what is left of it and, where it
/// only reduces, no more than would close the position.
pub open spec fn wanted_of(order: Order, held: Qty) -> int {
    let left = order.quantity.0 - order.filled.0;
    if order.reduce_only && closable(order.side, held) < left {
        closable(order.side, held)
    } else {
        left
    }
}

/// What a print does to one resting order: it works through the size ahead
/// of it first, and fills the order with what is left.
pub struct QueueShare {
    pub ahead: int,
    pub remaining: int,
    pub fill: int,
}

/// What a print of `remaining` does to an order behind `ahead`.
pub open spec fn queue_share(remaining: int, ahead: int, wanted: int) -> QueueShare {
    let consumed = if ahead <= 0 {
        0
    } else if remaining <= ahead {
        remaining
    } else {
        ahead
    };
    let left = remaining - consumed;
    let fill = if left <= 0 || wanted <= 0 {
        0
    } else if left <= wanted {
        left
    } else {
        wanted
    };
    QueueShare { ahead: ahead - consumed, remaining: left - fill, fill }
}

/// What a print of `remaining` does to an order behind `ahead`.
pub fn share_of_print(remaining: i64, ahead: i64, wanted: i64) -> (r: (i64, i64, i64))
    requires
        remaining > 0,
    ensures
        r.0 == queue_share(remaining as int, ahead as int, wanted as int).ahead,
        r.1 == queue_share(remaining as int, ahead as int, wanted as int).remaining,
        r.2 == queue_share(remaining as int, ahead as int, wanted as int).fill,
        r.2 >= 0,
        0 <= r.1 <= remaining - r.2,
{
    let consumed: i64 = if ahead <= 0 {
        0
    } else if remaining <= ahead {
        remaining
    } else {
        ahead
    };
    let left: i64 = remaining - consumed;
    let fill: i64 = if left <= 0 || wanted <= 0 {
        0
    } else if left <= wanted {
        left
    } else {
        wanted
    };
    (ahead - consumed, left - fill, fill)
}

/// A print never hands out more than it carries: what it consumes of the
/// queue, what it fills and what is left add up to it.
pub proof fn print_is_conserved(remaining: int, ahead: int, wanted: int)
    requires
        remaining > 0,
    ensures
        ({
            let share = queue_share(remaining, ahead, wanted);
            &&& (ahead - share.ahead) + share.fill + share.remaining == remaining
            &&& share.fill > 0 ==> share.ahead <= 0
            &&& 0 <= share.fill
            &&& wanted >= 0 ==> share.fill <= wanted
        }),
{
}

/// Total quantity of fills.
pub open spec fn volume(fills: Seq<Fill>) -> int
    decreases fills.len(),
{
    if fills.len() == 0 {
        0
    } else {
        volume(fills.drop_last()) + fills.last().quantity.0
    }
}

/// A fill that a print gave to a resting order.
pub open spec fn passive_fill(
    fill: Fill,
    passive: Side,
    market: KeyView,
    at: Price,
    ts: UnixNanos,
) -> bool {
    &&& !fill.is_taker
    &&& fill.side == passive
    &&& (fill.instrument@, fill.outcome.0) == market
    &&& reaches(passive, fill.price.0 as int, at.0 as int)
    &&& fill.quantity.0 > 0
    &&& fill.ts == ts
}

/// A fill of an order, as a fee model is asked to price it.
pub open spec fn charged_fill<'a>(
    order: Order,
    instrument: &'a Instrument,
    price: Price,
    quantity: Qty,
    is_taker: bool,
    ts: UnixNanos,
) -> FeeContext<'a> {
    FeeContext {
        order_id: order.id,
        instrument,
        side: order.side,
        price,
        quantity,
        is_taker,
        ts,
    }
}

/// Whether an order takes anything from a book.
pub open spec fn takes_from(order: Order, wanted: int, book: OrderBook) -> bool {
    let levels = walk_levels(
        book.ranked(order.side.opposite()),
        order.side,
        wanted,
        order.cap(),
    ).0;
    levels.len() > 0 && (order.time_in_force is FillOrKill ==> quantity_sum(levels) == wanted)
}

impl<F: FeeModel, L: FillModel, T: LatencyModel, M: MarginModel, X: ExecutionClient> Engine<
    F,
    L,
    T,
    M,
    X,
> {
    /// The margin model an instrument's bucket is sized by, where it has one.
    pub(crate) open spec fn isolating(self, instrument: Seq<char>) -> Option<M> {
        if self.setup.isolated@.dom().contains(instrument) {
            self.setup.margin
        } else {
            None
        }
    }

    /// One fill booked and the strategy told, whatever it asked for then.
    pub(crate) open spec fn books_fill(
        self,
        after: Self,
        id: OrderId,
        terms: FillTerms,
        ts: UnixNanos,
    ) -> bool {
        let order = self.desk.orders@[id.0];
        let fill = fill_of(order, terms, ts);
        let done = after.desk.orders@[id.0];
        &&& self.setup.instruments@.dom().contains(order.instrument@)
        &&& settled(
            self.ledger,
            after.ledger,
            fill,
            self.setup.instruments@[order.instrument@],
            self.isolating(order.instrument@),
        )
        &&& can_record(order, terms.quantity)
        &&& exists|booked: Self| #[trigger]
            booked.listens(after, Told::Fill(fill)) && self.records(booked, id, terms, ts)
        &&& after.desk.orders@.dom().contains(id.0)
        &&& only_terms_changed(recorded(order, terms.quantity), done)
        &&& forall|k: u64|
            k != id.0 && #[trigger] self.desk.orders@.dom().contains(k)
                ==> after.desk.orders@.dom().contains(k) && only_terms_changed(
                self.desk.orders@[k],
                after.desk.orders@[k],
            )
        &&& self.only_traded(after)
        &&& after.journal.metrics.fills_taker == (if terms.origin == (FillOrigin::Trade {
            is_taker: true,
        }) {
            bumped(self.journal.metrics.fills_taker)
        } else {
            self.journal.metrics.fills_taker
        })
        &&& after.journal.metrics.fills_maker == (if terms.origin == (FillOrigin::Trade {
            is_taker: false,
        }) {
            bumped(self.journal.metrics.fills_maker)
        } else {
            self.journal.metrics.fills_maker
        })
        &&& after.ledger.wf()
        &&& self.advanced(after)
    }

    /// A fill taken into the books: settled, recorded on its order and
    /// counted, before the strategy hears of it.
    pub(crate) open spec fn records(
        self,
        booked: Self,
        id: OrderId,
        terms: FillTerms,
        ts: UnixNanos,
    ) -> bool {
        let order = self.desk.orders@[id.0];
        let done = recorded(order, terms.quantity);
        &&& booked == (Engine {
            fee_model: booked.fee_model,
            ledger: booked.ledger,
            desk: Desk {
                orders: booked.desk.orders,
                resting: booked.desk.resting,
                resting_index: booked.desk.resting_index,
                queue_ahead: booked.desk.queue_ahead,
                ..self.desk
            },
            journal: Journal {
                metrics: RunMetrics {
                    fills_taker: if terms.origin == (FillOrigin::Trade { is_taker: true }) {
                        bumped(self.journal.metrics.fills_taker)
                    } else {
                        self.journal.metrics.fills_taker
                    },
                    fills_maker: if terms.origin == (FillOrigin::Trade { is_taker: false }) {
                        bumped(self.journal.metrics.fills_maker)
                    } else {
                        self.journal.metrics.fills_maker
                    },
                    ..self.journal.metrics
                },
                ..self.journal
            },
            ..self
        })
        &&& if done.status.terminal() {
            self.fee_model.released(id, &booked.fee_model)
        } else {
            booked.fee_model == self.fee_model
        }
        &&& self.setup.instruments@.dom().contains(order.instrument@)
        &&& self.desk.orders@.dom().contains(id.0)
        &&& can_record(order, terms.quantity)
        &&& booked.ledger.wf()
        &&& settled(
            self.ledger,
            booked.ledger,
            fill_of(order, terms, ts),
            self.setup.instruments@[order.instrument@],
            self.isolating(order.instrument@),
        )
        &&& booked.desk.orders@ == self.desk.orders@.insert(id.0, done)
        &&& booked.desk.resting@ == (if done.status.terminal() {
            without(self.desk.resting@, id)
        } else {
            self.desk.resting@
        })
        &&& booked.desk.queue_ahead@ == (if done.status.terminal() {
            self.desk.queue_ahead@.remove(id.0)
        } else {
            self.desk.queue_ahead@
        })
    }

    /// A fill that cannot be taken into the books.
    pub(crate) open spec fn cannot_record(
        self,
        id: OrderId,
        terms: FillTerms,
        ts: UnixNanos,
    ) -> bool {
        let order = self.desk.orders@[id.0];
        ||| !self.setup.instruments@.dom().contains(order.instrument@)
        ||| !can_record(order, terms.quantity)
        ||| cannot_settle(
            self.ledger,
            fill_of(order, terms, ts),
            self.setup.instruments@[order.instrument@],
            self.isolating(order.instrument@),
        )
    }

    /// Take a fill into the books.
    ///
    /// The account settles before the order records what it was filled, and
    /// an order that is done leaves the resting list and the fee model.
    pub(crate) fn take_fill(&mut self, id: OrderId, terms: FillTerms, ts: UnixNanos) -> (r: Result<
        Fill,
        BacktestError,
    >)
        requires
            old(self).sound(),
            old(self).desk.orders@.dom().contains(id.0),
            terms.quantity.0 >= 0,
        ensures
            final(self).sound(),
            match r {
                Ok(fill) => {
                    &&& fill == fill_of(old(self).desk.orders@[id.0], terms, ts)
                    &&& old(self).records(*final(self), id, terms, ts)
                    &&& old(self).takes_fill(*final(self), id, terms, ts)
                    &&& old(self).advanced(*final(self))
                },
                Err(_) => old(self).cannot_record(id, terms, ts),
            },
    {
        proof {
            Self::what_is_done_has_names();
        }
        let ghost start = *self;
        let mut order = match self.desk.order(id) {
            Some(order) => order,
            None => {
                return Err(BacktestError::Overflow { what: "order id" });
            },
        };
        let ghost was = order;
        let is_taker = matches!(terms.origin, FillOrigin::Trade { is_taker: true });
        let fill = Fill {
            order_id: id,
            instrument: order.instrument.clone(),
            outcome: order.outcome,
            side: order.side,
            price: terms.price,
            quantity: terms.quantity,
            commission: terms.commission,
            is_taker,
            ts,
            tag: clone_text(&order.tag),
        };
        assert(fill == fill_of(was, terms, ts));
        let instrument = self.setup.instruments.get(&order.instrument)?;
        let isolated = self.setup.isolated.contains_key(&order.instrument);
        let isolating = match &self.setup.margin {
            Some(model) => if isolated {
                Some(model)
            } else {
                None
            },
            None => None,
        };
        self.ledger.settle(fill.clone(), instrument, isolating)?;
        order.record_fill(terms.quantity)?;
        let open = order.is_open();
        assert(order == recorded(was, terms.quantity));
        self.desk.file(order);
        if !open {
            self.desk.remove_resting(id);
            self.fee_model.order_closed(id);
        }
        match terms.origin {
            FillOrigin::Trade { is_taker: true } => {
                self.journal.metrics.fills_taker = one_more(self.journal.metrics.fills_taker);
            },
            FillOrigin::Trade { is_taker: false } => {
                self.journal.metrics.fills_maker = one_more(self.journal.metrics.fills_maker);
            },
            FillOrigin::CompleteSet => {},
        }
        proof {
            assert(self.ledger.fills@.take(start.ledger.fills@.len() as int)
                =~= start.ledger.fills@);
            assert(self.journal.liquidations@.take(start.journal.liquidations@.len() as int)
                =~= start.journal.liquidations@);
            assert forall|k: u64| #[trigger]
                start.desk.orders@.dom().contains(k) implies self.desk.orders@.dom().contains(k)
                && same_order(start.desk.orders@[k], self.desk.orders@[k]) by {}
        }
        Ok(fill)
    }

    /// Book one fill: positions, cash and collateral, then the order, then
    /// the strategy is told.
    pub(crate) fn book_fill<S: Strategy>(
        &mut self,
        id: OrderId,
        terms: FillTerms,
        ts: UnixNanos,
        strategy: &mut S,
    ) -> (r: Result<(), BacktestError>)
        requires
            old(self).sound(),
            old(strategy).ready(),
            old(self).desk.orders@.dom().contains(id.0),
            terms.quantity.0 >= 0,
        ensures
            final(self).sound(),
            final(strategy).ready(),
            old(strategy).willing() ==> final(strategy).willing(),
            r is Ok ==> talked(*old(strategy), *final(strategy), old(self).talk@, final(self).talk@),
            r is Ok ==> old(self).books_fill(*final(self), id, terms, ts),
            r is Ok ==> old(self).fills_once(*final(self), id, terms, ts),
            old(self).unhindered(*final(self), *old(strategy), *final(strategy)) && r is Err
                ==> old(self).cannot_record(id, terms, ts),
    {
        proof {
            Self::what_is_done_has_names();
            talked_not(*strategy, self.talk@);
        }
        let ghost start = *self;
        let fill = self.take_fill(id, terms, ts)?;
        let ghost booked = *self;
        let r = self.tell_fill(strategy, &fill);
        proof {
            Self::heeded_advances(booked, *self);
            Self::advanced_again(start, booked, *self);
            start.trades_itself();
            Self::traded_again(start, booked, *self);
            if r is Ok {
                assert(booked.listens(*self, Told::Fill(fill_of(start.desk.orders@[id.0], terms, ts))));
                assert(booked.desk.orders@.dom().contains(id.0));
                assert forall|k: u64|
                    k != id.0 && #[trigger] start.desk.orders@.dom().contains(
                        k,
                    ) implies self.desk.orders@.dom().contains(k) && only_terms_changed(
                    start.desk.orders@[k],
                    self.desk.orders@[k],
                ) by {
                    assert(booked.desk.orders@.dom().contains(k));
                    assert(booked.desk.orders@[k] == start.desk.orders@[k]);
                }
            }
        }
        r
    }

    /// What the fee model asks for a fill.
    pub(crate) open spec fn charges(
        self,
        id: OrderId,
        price: Price,
        quantity: Qty,
        is_taker: bool,
        ts: UnixNanos,
    ) -> Result<Money, BacktestError> {
        let order = self.desk.orders@[id.0];
        self.fee_model.quote(
            charged_fill(
                order,
                &self.setup.instruments@[order.instrument@],
                price,
                quantity,
                is_taker,
                ts,
            ),
        )
    }

    /// A fill priced, and nothing else changed.
    pub(crate) open spec fn pays(
        self,
        paid: Self,
        id: OrderId,
        price: Price,
        quantity: Qty,
        is_taker: bool,
        ts: UnixNanos,
    ) -> bool {
        let order = self.desk.orders@[id.0];
        &&& paid == (Engine { fee_model: paid.fee_model, ..self })
        &&& self.fee_model.charged(
            charged_fill(
                order,
                &self.setup.instruments@[order.instrument@],
                price,
                quantity,
                is_taker,
                ts,
            ),
            &paid.fee_model,
        )
    }

    /// Ask the fee model what a fill costs.
    pub(crate) fn charge(
        &mut self,
        id: OrderId,
        price: Price,
        quantity: Qty,
        is_taker: bool,
        ts: UnixNanos,
    ) -> (r: Result<Money, BacktestError>)
        requires
            old(self).sound(),
            old(self).desk.orders@.dom().contains(id.0),
        ensures
            final(self).sound(),
            *final(self) == (Engine { fee_model: final(self).fee_model, ..*old(self) }),
            ({
                let known = old(self).setup.instruments@.dom().contains(
                    old(self).desk.orders@[id.0].instrument@,
                );
                let asked = old(self).charges(id, price, quantity, is_taker, ts);
                match r {
                    Ok(commission) => {
                        &&& known
                        &&& asked == Ok::<Money, BacktestError>(commission)
                        &&& old(self).pays(*final(self), id, price, quantity, is_taker, ts)
                    },
                    Err(_) => !known || asked is Err,
                }
            }),
    {
        let order = match self.desk.order(id) {
            Some(order) => order,
            None => {
                return Err(BacktestError::Overflow { what: "order id" });
            },
        };
        let instrument = self.setup.instruments.get(&order.instrument)?;
        self.fee_model.commission(
            FeeContext {
                order_id: id,
                instrument,
                side: order.side,
                price,
                quantity,
                is_taker,
                ts,
            },
        )
    }

    /// One fill against the market, at what the fee model charges for it.
    pub(crate) open spec fn executes(
        self,
        after: Self,
        id: OrderId,
        price: Price,
        quantity: Qty,
        is_taker: bool,
        ts: UnixNanos,
    ) -> bool {
        let charged = self.charges(id, price, quantity, is_taker, ts);
        let terms = FillTerms {
            price,
            quantity,
            origin: FillOrigin::Trade { is_taker },
            commission: charged->Ok_0,
        };
        &&& charged is Ok
        &&& exists|paid: Self| #[trigger]
            self.pays(paid, id, price, quantity, is_taker, ts) && paid.books_fill(
                after,
                id,
                terms,
                ts,
            )
    }

    /// A fill that cannot be charged for or taken into the books.
    pub(crate) open spec fn cannot_execute(
        self,
        id: OrderId,
        price: Price,
        quantity: Qty,
        is_taker: bool,
        ts: UnixNanos,
    ) -> bool {
        let charged = self.charges(id, price, quantity, is_taker, ts);
        ||| !self.setup.instruments@.dom().contains(self.desk.orders@[id.0].instrument@)
        ||| charged is Err
        ||| self.cannot_record(
            id,
            FillTerms {
                price,
                quantity,
                origin: FillOrigin::Trade { is_taker },
                commission: charged->Ok_0,
            },
            ts,
        )
    }

    /// Filling an order at one level after another comes to a level at which
    /// it cannot be filled.
    pub(crate) open spec fn levels_stop(
        self,
        id: OrderId,
        levels: Seq<(Price, Qty)>,
        is_taker: bool,
        ts: UnixNanos,
    ) -> bool {
        exists|k: int, between: Self|
            0 <= k < levels.len() && #[trigger] self.fills_all(
                between,
                id,
                levels.take(k),
                is_taker,
                ts,
            ) && #[trigger] between.cannot_fill(id, levels[k], is_taker, ts)
    }

    /// A level at which an order cannot be filled.
    pub(crate) open spec fn cannot_fill(
        self,
        id: OrderId,
        level: (Price, Qty),
        is_taker: bool,
        ts: UnixNanos,
    ) -> bool {
        self.cannot_execute(id, level.0, level.1, is_taker, ts)
    }

    /// Charge and book one fill against the market.
    pub(crate) fn execute<S: Strategy>(
        &mut self,
        id: OrderId,
        price: Price,
        quantity: Qty,
        is_taker: bool,
        ts: UnixNanos,
        strategy: &mut S,
    ) -> (r: Result<(), BacktestError>)
        requires
            old(self).sound(),
            old(strategy).ready(),
            old(self).desk.orders@.dom().contains(id.0),
            quantity.0 >= 0,
        ensures
            final(self).sound(),
            final(strategy).ready(),
            old(strategy).willing() ==> final(strategy).willing(),
            r is Ok ==> talked(*old(strategy), *final(strategy), old(self).talk@, final(self).talk@),
            r is Ok ==> old(self).executes(*final(self), id, price, quantity, is_taker, ts),
            old(self).unhindered(*final(self), *old(strategy), *final(strategy)) && r is Err ==> old(self).cannot_execute(
                id,
                price,
                quantity,
                is_taker,
                ts,
            ),
    {
        proof {
            talked_not(*strategy, self.talk@);
        }
        let ghost start = *self;
        let commission = self.charge(id, price, quantity, is_taker, ts)?;
        let ghost charged = *self;
        let r = self.book_fill(
            id,
            FillTerms { price, quantity, origin: FillOrigin::Trade { is_taker }, commission },
            ts,
            strategy,
        );
        proof {
            if r is Ok {
                assert(start.pays(charged, id, price, quantity, is_taker, ts));
            }
        }
        r
    }

    /// One order finished and off the lists, and the rest as it was.
    pub(crate) open spec fn closes(self, after: Self, id: OrderId, status: OrderStatus) -> bool {
        &&& after == (Engine { desk: after.desk, fee_model: after.fee_model, ..self })
        &&& if status.terminal() {
            self.fee_model.released(id, &after.fee_model)
        } else {
            after.fee_model == self.fee_model
        }
        &&& after.desk == (Desk {
            orders: after.desk.orders,
            resting: after.desk.resting,
            resting_index: after.desk.resting_index,
            queue_ahead: after.desk.queue_ahead,
            ..self.desk
        })
        &&& after.desk.orders@ == (if open_in(self.desk.orders@, id.0) {
            self.desk.orders@.insert(id.0, (Order { status, ..self.desk.orders@[id.0] }))
        } else {
            self.desk.orders@
        })
        &&& after.desk.resting@ == without(self.desk.resting@, id)
        &&& after.desk.queue_ahead@ == self.desk.queue_ahead@.remove(id.0)
    }

    /// Finish an order.
    pub(crate) fn close(&mut self, id: OrderId, status: OrderStatus)
        requires
            old(self).sound(),
        ensures
            final(self).sound(),
            old(self).closes(*final(self), id, status),
    {
        self.desk.close(id, status);
        if status.is_terminal() {
            self.fee_model.order_closed(id);
        }
    }

    /// An order that came to rest, or did already.
    pub(crate) open spec fn rests(self, after: Self, id: OrderId) -> bool {
        let order = self.desk.orders@[id.0];
        let rested = self.desk.resting@.contains(id);
        let joins = !rested && self.fill_model.tracks_queue() && order.cap() is Some
            && !self.desk.queue_ahead@.dom().contains(id.0);
        &&& after == (Engine { desk: after.desk, journal: after.journal, ..self })
        &&& after.desk == (Desk {
            resting: after.desk.resting,
            resting_index: after.desk.resting_index,
            queue_ahead: after.desk.queue_ahead,
            ..self.desk
        })
        &&& after.desk.resting@ == (if rested {
            self.desk.resting@
        } else {
            self.desk.resting@.push(id)
        })
        &&& after.desk.queue_ahead@ == (if rested {
            self.desk.queue_ahead@
        } else {
            queued(
                self.desk.queue_ahead@,
                order,
                self.market.book_in(market_of(order)),
                self.fill_model.tracks_queue(),
            )
        })
        &&& after.journal == (Journal { metrics: after.journal.metrics, ..self.journal })
        &&& after.journal.metrics == (RunMetrics {
            queue_joins: if joins {
                bumped(self.journal.metrics.queue_joins)
            } else {
                self.journal.metrics.queue_joins
            },
            ..self.journal.metrics
        })
    }

    /// What is done with an order nothing more could be matched for: one
    /// that rests comes to rest, one that does not is cancelled.
    pub(crate) open spec fn leaves(self, after: Self, id: OrderId) -> bool {
        let order = self.desk.orders@[id.0];
        if order.time_in_force is GoodTilCancel {
            if order.kind is Limit {
                self.rests(after, id)
            } else {
                after == self
            }
        } else {
            self.closes(after, id, OrderStatus::Cancelled)
        }
    }

    /// Apply the time-in-force rule when nothing more could be matched.
    pub(crate) fn no_liquidity(&mut self, id: OrderId)
        requires
            old(self).sound(),
            old(self).desk.orders@.dom().contains(id.0),
        ensures
            final(self).sound(),
            old(self).leaves(*final(self), id),
    {
        let order = match self.desk.order(id) {
            Some(order) => order,
            None => {
                return;
            },
        };
        match order.time_in_force {
            TimeInForce::ImmediateOrCancel => {
                self.close(id, OrderStatus::Cancelled);
            },
            TimeInForce::FillOrKill => {
                self.close(id, OrderStatus::Cancelled);
            },
            TimeInForce::GoodTilCancel => {
                if matches!(order.kind, OrderKind::Limit { .. }) {
                    let tracks = self.fill_model.uses_queue_position();
                    if self.desk.add_resting(id, &self.market, tracks) {
                        self.journal.metrics.queue_joins = one_more(
                            self.journal.metrics.queue_joins,
                        );
                    }
                }
            },
        }
    }

    proof fn closing_advances(a: Self, b: Self, id: OrderId, status: OrderStatus)
        requires
            a.closes(b, id, status),
        ensures
            a.advanced(b),
    {
        assert(b.ledger.fills@.take(a.ledger.fills@.len() as int) =~= a.ledger.fills@);
        assert(b.journal.liquidations@.take(a.journal.liquidations@.len() as int)
            =~= a.journal.liquidations@);
    }

    pub(crate) proof fn leaving_advances(a: Self, b: Self, id: OrderId)
        requires
            a.leaves(b, id),
        ensures
            a.advanced(b),
    {
        assert(b.ledger.fills@.take(a.ledger.fills@.len() as int) =~= a.ledger.fills@);
        assert(b.journal.liquidations@.take(a.journal.liquidations@.len() as int)
            =~= a.journal.liquidations@);
    }

    /// An order refused because its instrument stopped trading.
    pub(crate) open spec fn stops(self, after: Self, id: OrderId, text: Seq<char>) -> bool {
        let order = self.desk.orders@[id.0];
        let done = after.desk.orders@[id.0];
        &&& after == (Engine {
            desk: after.desk,
            fee_model: after.fee_model,
            journal: after.journal,
            ..self
        })
        &&& self.fee_model.released(id, &after.fee_model)
        &&& after.desk == (Desk {
            orders: after.desk.orders,
            resting: after.desk.resting,
            resting_index: after.desk.resting_index,
            queue_ahead: after.desk.queue_ahead,
            ..self.desk
        })
        &&& after.desk.orders@ == self.desk.orders@.insert(id.0, done)
        &&& crate::engine::rejected_as(order, done, text)
        &&& after.desk.resting@ == without(self.desk.resting@, id)
        &&& after.desk.queue_ahead@ == self.desk.queue_ahead@.remove(id.0)
        &&& after.journal == (Journal { metrics: after.journal.metrics, ..self.journal })
        &&& after.journal.metrics == (RunMetrics {
            orders_rejected_expired: bumped(self.journal.metrics.orders_rejected_expired),
            ..self.journal.metrics
        })
    }

    /// An order filled at one level after another, each charged for and
    /// booked before the next.
    pub(crate) open spec fn fills_all(
        self,
        after: Self,
        id: OrderId,
        levels: Seq<(Price, Qty)>,
        is_taker: bool,
        ts: UnixNanos,
    ) -> bool
        decreases levels.len(),
    {
        if levels.len() == 0 {
            after == self
        } else {
            exists|between: Self|
                self.fills_all(between, id, levels.drop_last(), is_taker, ts)
                    && #[trigger] between.executes(
                    after,
                    id,
                    levels.last().0,
                    levels.last().1,
                    is_taker,
                    ts,
                )
        }
    }

    /// An order that is still open once it has taken what it can.
    pub(crate) open spec fn settles_down(self, after: Self, id: OrderId) -> bool {
        if open_in(self.desk.orders@, id.0) {
            self.leaves(after, id)
        } else {
            after == self
        }
    }

    /// An order matched against a book: filled level by level, best first,
    /// and then left to rest or cancelled.
    pub(crate) open spec fn matches_book(
        self,
        after: Self,
        id: OrderId,
        ts: UnixNanos,
        effective: OrderBook,
    ) -> bool {
        let order = self.desk.orders@[id.0];
        let wanted = wanted_of(
            order,
            quantity_in(self.ledger.portfolio.held(), market_of(order)),
        );
        let walk = walk_levels(
            effective.ranked(order.side.opposite()),
            order.side,
            wanted,
            order.cap(),
        );
        if order.reduce_only && wanted <= 0 {
            self.closes(after, id, OrderStatus::Cancelled)
        } else if order.time_in_force is FillOrKill && quantity_sum(walk.0) != wanted {
            self.closes(after, id, OrderStatus::Cancelled)
        } else {
            let done = after.desk.orders@[id.0];
            &&& exists|filled: Self|
                self.fills_all(filled, id, walk.0, !order.post_only, ts)
                    && #[trigger] filled.settles_down(after, id)
            &&& fills_added(
                self.ledger.fills@,
                after.ledger.fills@,
                order,
                walk.0,
                !order.post_only,
                ts,
            )
            &&& after.desk.orders@.dom().contains(id.0)
            &&& same_order(order, done)
            &&& done.filled.0 == order.filled.0 + quantity_sum(walk.0)
            &&& !(order.time_in_force is GoodTilCancel) ==> done.status.terminal()
            &&& order.time_in_force is GoodTilCancel && !done.status.terminal() && done.kind is Limit
                ==> after.desk.resting@.contains(id)
            &&& self.only_traded(after)
            &&& self.advanced(after)
        }
    }

    /// An order matched against a book, or against one the fill model puts
    /// in its place.
    pub(crate) open spec fn matches_some(
        self,
        after: Self,
        id: OrderId,
        ts: UnixNanos,
        book: OrderBook,
    ) -> bool {
        exists|shape: Option<OrderBook>| #[trigger]
            self.fill_model.reshapes(book, self.desk.orders@[id.0], shape) && self.matches_book(
                after,
                id,
                ts,
                effective_book(shape, book),
            )
    }

    /// One order matched against the current book.
    pub(crate) open spec fn tries(self, after: Self, id: OrderId, ts: UnixNanos) -> bool {
        let order = self.desk.orders@[id.0];
        let stopped = halted(
            self.setup.instruments@,
            self.board.delisted@,
            order.instrument@,
            ts,
        );
        if !open_in(self.desk.orders@, id.0) || order.status is InFlight {
            after == self
        } else if stopped is Some {
            self.stops(after, id, stopped->Some_0)
        } else {
            match self.market.book_in(market_of(order)) {
                None => self.leaves(after, id),
                Some(book) => self.matches_some(after, id, ts, book),
            }
        }
    }

    /// Whether an order takes anything from a book and, where the strategy
    /// stands in no way, comes to a level at which it cannot be filled.
    pub(crate) open spec fn takes_levels(
        self,
        id: OrderId,
        wanted: int,
        book: OrderBook,
        ts: UnixNanos,
        quiet: bool,
    ) -> bool {
        let order = self.desk.orders@[id.0];
        let levels = walk_levels(
            book.ranked(order.side.opposite()),
            order.side,
            wanted,
            order.cap(),
        ).0;
        takes_from(order, wanted, book) && (quiet ==> self.levels_stop(
            id,
            levels,
            !order.post_only,
            ts,
        ))
    }

    /// Whether trying an order comes to trading: it is open at the venue, its
    /// market trades and shows a book, and the order takes something from it.
    /// Where the strategy stands in no way, `quiet`, it comes to a level at which the order
    /// cannot be filled.
    pub(crate) open spec fn finds_levels(self, id: OrderId, ts: UnixNanos, quiet: bool) -> bool {
        let order = self.desk.orders@[id.0];
        let wanted = wanted_of(
            order,
            quantity_in(self.ledger.portfolio.held(), market_of(order)),
        );
        &&& open_in(self.desk.orders@, id.0)
        &&& !(order.status is InFlight)
        &&& halted(
            self.setup.instruments@,
            self.board.delisted@,
            order.instrument@,
            ts,
        ) is None
        &&& self.market.book_in(market_of(order)) is Some
        &&& !(order.reduce_only && wanted <= 0)
        &&& exists|shape: Option<OrderBook>| #[trigger]
            self.fill_model.reshapes(self.market.book_in(market_of(order))->Some_0, order, shape)
                && self.takes_levels(
                id,
                wanted,
                effective_book(shape, self.market.book_in(market_of(order))->Some_0),
                ts,
                quiet,
            )
    }

    /// Match one order against the current book.
    ///
    /// The close is enforced here, on the fill path, and not only where
    /// orders arrive: slices, parked triggers and the venue's own orders all
    /// pass through here and nowhere else.
    pub(crate) fn try_fill<S: Strategy>(
        &mut self,
        id: OrderId,
        ts: UnixNanos,
        strategy: &mut S,
    ) -> (r: Result<(), BacktestError>)
        requires
            old(self).sound(),
            old(strategy).ready(),
        ensures
            final(self).sound(),
            final(strategy).ready(),
            old(strategy).willing() ==> final(strategy).willing(),
            r is Ok ==> talked(*old(strategy), *final(strategy), old(self).talk@, final(self).talk@),
            r is Ok ==> old(self).tries(*final(self), id, ts),
            r is Ok ==> old(self).is_tried(*final(self), id, ts),
            r is Ok ==> old(self).advanced(*final(self)),
            r is Err ==> old(self).finds_levels(id, ts, old(self).unhindered(*final(self), *old(strategy), *final(strategy))),
    {
        proof {
            Self::what_is_done_has_names();
            talked_not(*strategy, self.talk@);
        }
        let ghost start = *self;
        proof {
            start.advances_itself();
        }
        let order = match self.desk.order(id) {
            Some(order) => order,
            None => {
                return Ok(());
            },
        };
        if !order.is_open() || matches!(order.status, OrderStatus::InFlight) {
            return Ok(());
        }
        if let Some(text) = stopped_trading(
            &self.setup.instruments,
            &self.board.delisted,
            &order.instrument,
            ts,
        ) {
            self.desk.refuse(id, OrderStatus::Rejected, text);
            self.desk.remove_resting(id);
            self.fee_model.order_closed(id);
            self.journal.metrics.orders_rejected_expired = one_more(
                self.journal.metrics.orders_rejected_expired,
            );
            return Ok(());
        }
        let key = key_for(&order.instrument, order.outcome);
        let held = self.ledger.quantity(&order.instrument, order.outcome);
        let book = match self.market.book(&key) {
            Some(book) => book,
            None => {
                self.no_liquidity(id);
                proof {
                    Self::leaving_advances(start, *self, id);
                }
                return Ok(());
            },
        };
        let shape = self.fill_model.book_for_fill(book, &order);
        let ghost seen = *book;
        let ghost form = shape;
        let ghost effective = effective_book(form, seen);
        assert(start.market.book_in(market_of(order)) == Some(seen));
        let wanted = wanted_quantity(&order, held);
        let walk = match &shape {
            Some(reshaped) => reshaped.walk(order.side, wanted, order.limit_price()),
            None => book.walk(order.side, wanted, order.limit_price()),
        };
        let ghost levels = walk.fills@;
        assert(levels == walk_levels(
            effective.ranked(order.side.opposite()),
            order.side,
            wanted.0 as int,
            order.cap(),
        ).0);
        assert(start.fill_model.reshapes(seen, order, form));
        if order.reduce_only && !wanted.is_positive() {
            self.close(id, OrderStatus::Cancelled);
            proof {
                Self::closing_advances(start, *self, id, OrderStatus::Cancelled);
                assert(start.matches_book(*self, id, ts, effective));
                assert(start.matches_some(*self, id, ts, seen));
            }
            return Ok(());
        }
        if matches!(order.time_in_force, TimeInForce::FillOrKill) && walk.filled().0 != wanted.0 {
            self.close(id, OrderStatus::Cancelled);
            proof {
                Self::closing_advances(start, *self, id, OrderStatus::Cancelled);
                assert(start.matches_book(*self, id, ts, effective));
                assert(start.matches_some(*self, id, ts, seen));
            }
            return Ok(());
        }
        let is_taker = !order.post_only;
        let traded = self.fill_levels(id, &walk.fills, is_taker, ts, strategy);
        let ghost quiet = start.unhindered(*self, *old(strategy), *strategy);
        proof {
            if traded is Err {
                let book = start.market.book_in(market_of(order))->Some_0;
                assert(order == start.desk.orders@[id.0]);
                assert(start.fill_model.reshapes(book, order, form));
                assert(takes_from(order, wanted.0 as int, effective_book(form, book)));
                assert(start.takes_levels(
                    id,
                    wanted.0 as int,
                    effective_book(form, book),
                    ts,
                    quiet,
                ));
                assert(start.finds_levels(id, ts, quiet));
            }
        }
        traded?;
        let ghost filled = *self;
        let open = crate::desk::is_open(&self.desk.orders, id);
        if open {
            self.no_liquidity(id);
            proof {
                Self::leaving_advances(filled, *self, id);
                Self::advanced_again(start, filled, *self);
                filled.trades_itself();
                Self::traded_again(start, filled, *self);
                if filled.desk.orders@[id.0].time_in_force is GoodTilCancel {
                    if filled.desk.orders@[id.0].kind is Limit {
                        let before = filled.desk.resting@;
                        if !before.contains(id) {
                            assert(self.desk.resting@[before.len() as int] == id);
                        }
                    }
                }
            }
        }
        proof {
            assert(filled.settles_down(*self, id));
            assert(start.matches_book(*self, id, ts, effective));
            assert(start.matches_some(*self, id, ts, seen));
        }
        Ok(())
    }

    /// Trying an order only ever trades.
    pub(crate) proof fn trying_only_trades(a: Self, b: Self, id: OrderId, ts: UnixNanos)
        requires
            a.tries(b, id, ts),
        ensures
            a.only_traded(b),
    {
        a.trades_itself();
    }

    pub(crate) proof fn advances_itself(self)
        ensures
            self.advanced(self),
    {
        assert(self.ledger.fills@.take(self.ledger.fills@.len() as int) =~= self.ledger.fills@);
        assert(self.journal.liquidations@.take(self.journal.liquidations@.len() as int)
            =~= self.journal.liquidations@);
    }

    /// Fill an order level by level.
    fn fill_levels<S: Strategy>(
        &mut self,
        id: OrderId,
        levels: &Vec<(Price, Qty)>,
        is_taker: bool,
        ts: UnixNanos,
        strategy: &mut S,
    ) -> (r: Result<(), BacktestError>)
        requires
            old(self).sound(),
            old(strategy).ready(),
            old(self).desk.orders@.dom().contains(id.0),
            forall|i: int| 0 <= i < levels@.len() ==> (#[trigger] levels@[i]).1.0 > 0,
        ensures
            final(self).sound(),
            final(strategy).ready(),
            old(strategy).willing() ==> final(strategy).willing(),
            r is Ok ==> talked(*old(strategy), *final(strategy), old(self).talk@, final(self).talk@),
            r is Ok ==> {
                let order = old(self).desk.orders@[id.0];
                let done = final(self).desk.orders@[id.0];
                &&& fills_added(
                    old(self).ledger.fills@,
                    final(self).ledger.fills@,
                    order,
                    levels@,
                    is_taker,
                    ts,
                )
                &&& final(self).desk.orders@.dom().contains(id.0)
                &&& same_order(order, done)
                &&& done.filled.0 == order.filled.0 + quantity_sum(levels@)
                &&& old(self).only_traded(*final(self))
                &&& old(self).advanced(*final(self))
                &&& old(self).fills_all(*final(self), id, levels@, is_taker, ts)
            },
            levels@.len() == 0 ==> r is Ok && *final(self) == *old(self),
            old(self).unhindered(*final(self), *old(strategy), *final(strategy)) && r is Err ==> old(self).levels_stop(
                id,
                levels@,
                is_taker,
                ts,
            ),
    {
        proof {
            talked_not(*strategy, self.talk@);
        }
        let ghost start = *self;
        let ghost order = self.desk.orders@[id.0];
        let mut i: usize = 0;
        proof {
            start.advances_itself();
            start.trades_itself();
            assert(levels@.take(0) =~= Seq::<(Price, Qty)>::empty());
        }
        while i < levels.len()
            invariant
                i <= levels@.len(),
                self.sound(),
                strategy.ready(),
                old(strategy).willing() ==> strategy.willing(),
                talked(*old(strategy), *strategy, old(self).talk@, self.talk@),
                start == *old(self),
                order == start.desk.orders@[id.0],
                forall|j: int| 0 <= j < levels@.len() ==> (#[trigger] levels@[j]).1.0 > 0,
                self.desk.orders@.dom().contains(id.0),
                same_order(order, self.desk.orders@[id.0]),
                self.desk.orders@[id.0].filled.0 == order.filled.0 + quantity_sum(
                    levels@.take(i as int),
                ),
                i == 0 ==> *self == start,
                start.fills_all(*self, id, levels@.take(i as int), is_taker, ts),
                start.advanced(*self),
                start.only_traded(*self),
                fills_added(
                    start.ledger.fills@,
                    self.ledger.fills@,
                    order,
                    levels@.take(i as int),
                    is_taker,
                    ts,
                ),
            decreases levels@.len() - i,
        {
            let ghost before = *self;
            let (price, quantity) = levels[i];
            let ghost asked = *strategy;
            let done = self.execute(id, price, quantity, is_taker, ts, strategy);
            if let Err(e) = done {
                proof {
                    Self::free_all_along(
                        old(self).talk@,
                        before.talk@,
                        *self,
                        *old(strategy),
                        asked,
                        *strategy,
                    );
                    if old(self).unhindered(*self, *old(strategy), *strategy) {
                        assert(start.fills_all(before, id, levels@.take(i as int), is_taker, ts));
                        assert(before.cannot_fill(id, levels@[i as int], is_taker, ts));
                    }
                }
                return Err(e);
            }
            proof {
                talked_again(
                    *old(strategy),
                    asked,
                    *strategy,
                    old(self).talk@,
                    before.talk@,
                    self.talk@,
                );
                Self::advanced_again(start, before, *self);
                Self::traded_again(start, before, *self);
                let short = levels@.take(i as int);
                let long = levels@.take(i + 1);
                assert(long.drop_last() =~= short);
                assert(long.last() == levels@[i as int]);
                assert(before.executes(*self, id, long.last().0, long.last().1, is_taker, ts));
                let base = start.ledger.fills@.len();
                assert(self.ledger.fills@.len() == before.ledger.fills@.len() + 1);
                assert forall|j: int| 0 <= j < long.len() implies fills_level(
                    #[trigger] self.ledger.fills@[base + j],
                    order,
                    long[j],
                    is_taker,
                    ts,
                ) by {
                    if j < i {
                        assert(self.ledger.fills@[base + j] == before.ledger.fills@[base + j]);
                        assert(short[j] == long[j]);
                    }
                }
            }
            i += 1;
        }
        assert(levels@.take(i as int) =~= levels@);
        Ok(())
    }
}

/// How much an order asks the book for.
fn wanted_quantity(order: &Order, held: Qty) -> (q: Qty)
    requires
        order.quantity.0 >= 0,
        order.filled.0 >= 0,
    ensures
        q.0 == wanted_of(*order, held),
{
    let left = order.remaining();
    if !order.reduce_only {
        return left;
    }
    let most: i64 = match order.side {
        Side::Buy => if held.0 < 0 {
            saturating_difference(0, held.0)
        } else {
            0
        },
        Side::Sell => if held.0 > 0 {
            held.0
        } else {
            0
        },
    };
    if most < left.0 {
        Qty(most)
    } else {
        left
    }
}

/// An order that only reduces asks for no more than would close the
/// position, so filling it never opens one or turns it round.
pub proof fn reducing_never_flips(order: Order, held: Qty, filled: int)
    requires
        order.reduce_only,
        0 <= filled <= wanted_of(order, held),
    ensures
        order.side is Sell && filled > 0 ==> held.0 > 0 && held.0 - filled >= 0,
        order.side is Buy && filled > 0 ==> held.0 < 0 && held.0 + filled <= 0,
{
}

/// A print serves the queue in order: nothing fills an order while something
/// is ahead of it, nothing is left over while the order wants more, and an
/// order with nothing ahead of it gets the whole print.
pub proof fn a_print_serves_the_queue_in_order(remaining: int, ahead: int, wanted: int)
    requires
        remaining > 0,
        wanted >= 0,
    ensures
        ({
            let share = queue_share(remaining, ahead, wanted);
            &&& share.remaining >= 0
            &&& share.ahead > 0 ==> share.fill == 0 && share.remaining == 0
            &&& share.fill < wanted ==> share.remaining == 0
            &&& ahead <= 0 ==> share.ahead == ahead && share.fill + share.remaining == remaining
            &&& ahead > 0 ==> 0 <= share.ahead <= ahead
        }),
{
}

/// An order asks for all that is left of it, or, where it only reduces and
/// the position is smaller, for as much as closes the position: a sale what
/// is held long, a purchase what is held short.
pub proof fn an_order_asks_for_what_is_left(order: Order, held: Qty)
    ensures
        !order.reduce_only ==> wanted_of(order, held) == order.quantity.0 - order.filled.0,
        order.reduce_only ==> {
            let left = order.quantity.0 - order.filled.0;
            let open = if order.side is Sell {
                held.0 as int
            } else {
                -held.0
            };
            &&& wanted_of(order, held) <= left
            &&& 0 <= open <= i64::MAX && open <= left ==> wanted_of(order, held) == open
            &&& 0 <= left <= open && left <= i64::MAX ==> wanted_of(order, held) == left
            &&& open <= 0 && left >= 0 ==> wanted_of(order, held) == 0
        },
{
}

/// A fill is of its order and on its terms, and is a taker's only where it
/// was traded for as one.
pub proof fn a_fill_is_of_its_order(order: Order, terms: FillTerms, ts: UnixNanos)
    ensures
        ({
            let fill = fill_of(order, terms, ts);
            &&& fill.order_id == order.id && fill.instrument == order.instrument
            &&& fill.outcome == order.outcome && fill.side == order.side && fill.tag == order.tag
            &&& fill.price == terms.price && fill.quantity == terms.quantity
            &&& fill.commission == terms.commission && fill.ts == ts
            &&& fill.is_taker <==> (terms.origin matches FillOrigin::Trade { is_taker } && is_taker)
        }),
{
}

/// A fee model is asked about the fill that is booked: the order's own id and
/// side, at the price and size filled, as the maker or taker it was.
pub proof fn a_fee_is_asked_of_the_fill(
    order: Order,
    instrument: Instrument,
    price: Price,
    quantity: Qty,
    is_taker: bool,
    ts: UnixNanos,
)
    ensures
        ({
            let ctx = charged_fill(order, &instrument, price, quantity, is_taker, ts);
            let fill = fill_of(
                order,
                FillTerms {
                    price,
                    quantity,
                    origin: FillOrigin::Trade { is_taker },
                    commission: Money(0),
                },
                ts,
            );
            &&& ctx.order_id == fill.order_id && ctx.side == fill.side
            &&& ctx.price == fill.price && ctx.quantity == fill.quantity
            &&& ctx.is_taker == fill.is_taker && ctx.ts == fill.ts
            &&& *ctx.instrument == instrument
        }),
{
}

} // verus!
